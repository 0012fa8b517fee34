use vstd::prelude::*;

verus! {

/// `std::io::Error`, carried through the library's results.
#[verifier::external_type_specification]
#[verifier::external_body]
pub struct ExIoError(std::io::Error);

/// Builds an `std::io::Error` of kind `InvalidData` with a message
/// (`std::io::Error::new`); nothing is claimed of the value.
#[verifier::external_body]
pub(crate) fn invalid_data(msg: &str) -> std::io::Error {
    std::io::Error::new(std::io::ErrorKind::InvalidData, msg.to_string())
}

/// Builds an `std::io::Error` of kind `UnexpectedEof` with a message
/// (`std::io::Error::new`); nothing is claimed of the value.
#[verifier::external_body]
pub(crate) fn unexpected_eof(msg: &str) -> std::io::Error {
    std::io::Error::new(std::io::ErrorKind::UnexpectedEof, msg.to_string())
}

/// Builds an `std::io::Error` of kind `Other` with a message
/// (`std::io::Error::other`); nothing is claimed of the value.
#[verifier::external_body]
pub(crate) fn io_other(msg: &str) -> std::io::Error {
    std::io::Error::other(msg.to_string())
}

/// A readable run of bytes, such as a file or an object in a bucket.
pub trait BytesSource {
    /// The bytes the source holds. The sources of this library define it.
    /// A source that does not still holds some bytes of its own, which the
    /// library does not know: by default each value of the source type is
    /// given its own unknown run of bytes, so that sources of different
    /// lengths are never taken to hold the same bytes.
    open spec fn content(&self) -> Seq<u8> {
        (vstd::pervasive::arbitrary::<spec_fn(&Self) -> Seq<u8>>())(self)
    }

    /// Whether every read within the source succeeds, as with bytes held
    /// in memory. The sources of this library define it; for a source that
    /// does not, nothing is promised of its reads' success.
    open spec fn reads_never_fail(&self) -> bool {
        false
    }

    /// Reads the bytes `[beg, end)`. A read can fail (the outside world
    /// decides, unless `reads_never_fail`); when it succeeds it returns
    /// exactly those bytes.
    fn read(&self, beg: u64, end: u64) -> (r: Result<Vec<u8>, std::io::Error>)
        requires
            beg <= end <= self.content().len(),
        ensures
            r matches Ok(v) ==> v@ == self.content().subrange(beg as int, end as int),
            self.reads_never_fail() ==> r is Ok,
    ;

    /// The number of bytes the source holds.
    fn end(&self) -> (e: u64)
        ensures
            e == self.content().len(),
    ;
}

/// A source whose bytes are held in memory.
#[derive(Debug)]
pub struct MemSource {
    pub data: Vec<u8>,
}

impl MemSource {
    pub fn new(data: Vec<u8>) -> (s: MemSource)
        ensures
            s.data@ == data@,
    {
        MemSource { data }
    }
}

impl BytesSource for MemSource {
    open spec fn content(&self) -> Seq<u8> {
        self.data@
    }

    open spec fn reads_never_fail(&self) -> bool {
        true
    }

    fn read(&self, beg: u64, end: u64) -> (r: Result<Vec<u8>, std::io::Error>)
        ensures
            r is Ok,
    {
        let mut v: Vec<u8> = Vec::new();
        let mut i = beg;
        while i < end
            invariant
                beg <= i <= end,
                end <= self.data@.len(),
                v@ == self.data@.subrange(beg as int, i as int),
            decreases end - i,
        {
            assert(i < self.data.len());
            let k = i as usize;
            assert(k == i);
            v.push(self.data[k]);
            assert(v@ =~= self.data@.subrange(beg as int, i + 1));
            i = i + 1;
        }
        Ok(v)
    }

    fn end(&self) -> (e: u64) {
        self.data.len() as u64
    }
}

/// A source that holds nothing, standing in for one not yet given.
#[derive(Debug)]
pub struct PlaceholderSource;

impl BytesSource for PlaceholderSource {
    open spec fn content(&self) -> Seq<u8> {
        Seq::empty()
    }

    open spec fn reads_never_fail(&self) -> bool {
        true
    }

    fn read(&self, beg: u64, end: u64) -> (r: Result<Vec<u8>, std::io::Error>)
        ensures
            r is Ok,
    {
        Ok(Vec::new())
    }

    fn end(&self) -> (e: u64) {
        0
    }
}

/// Reads `[beg, end)` of `src`, or fails with `UnexpectedEof` when the
/// range goes past the end of the source; within the source it fails only
/// where the source's read does.
pub fn read_range<S: BytesSource>(src: &S, beg: u64, end: u64) -> (r: Result<
    Vec<u8>,
    std::io::Error,
>)
    requires
        beg <= end,
    ensures
        r matches Ok(v) ==> end <= src.content().len() && v@ == src.content().subrange(
            beg as int,
            end as int,
        ),
        end > src.content().len() ==> r is Err,
        end <= src.content().len() && src.reads_never_fail() ==> r is Ok,
{
    if end > src.end() {
        return Err(unexpected_eof("read past the end of the source"));
    }
    src.read(beg, end)
}

} // verus!
