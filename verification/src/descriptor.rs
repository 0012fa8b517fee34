use crate::bytessource::{invalid_data, read_range, unexpected_eof, BytesSource};
use crate::errors::{DescriptorError, DeserializationError, IoError, OpenError, OpenErrorKind};
use crate::extents::min;
use crate::header::{check_signature, spec_file_type, spec_vmdk4_read, FileType, Vmdk4Header};
use crate::text::{find_first, first_index, lines, skip_ws_back, str_chars, trim_end};
use vstd::prelude::*;
use vstd::string::StringExecFns;

verus! {

// ---------------------------------------------------------------------------
// Text from bytes
// ---------------------------------------------------------------------------

/// What `String::from_utf8_lossy` makes of `b`: its UTF-8 text, with each
/// invalid sequence replaced by U+FFFD.
pub uninterp spec fn utf8_lossy(b: Seq<u8>) -> Seq<char>;

/// Decodes `b` as UTF-8, replacing invalid sequences
/// (`String::from_utf8_lossy`); the result is `utf8_lossy(b)`.
#[verifier::external_body]
fn lossy_text(b: &[u8]) -> (s: String)
    ensures
        s@ == utf8_lossy(b@),
{
    String::from_utf8_lossy(b).into_owned()
}

/// What `std::str::from_utf8` makes of `b`: its text when `b` is valid
/// UTF-8, `None` otherwise.
pub uninterp spec fn utf8_decoded(b: Seq<u8>) -> Option<Seq<char>>;

/// Decodes `b` as UTF-8 (`std::str::from_utf8`); the result is
/// `utf8_decoded(b)`. ASCII bytes are valid UTF-8, each the character of
/// the same number.
#[verifier::external_body]
fn decode_utf8(b: &[u8]) -> (r: Option<String>)
    ensures
        match r {
            Some(s) => utf8_decoded(b@) == Some(s@),
            None => utf8_decoded(b@) is None,
        },
        (forall|i: int| 0 <= i < b@.len() ==> #[trigger] b@[i] < 0x80) ==> r is Some,
        r matches Some(s) ==> ((forall|i: int| 0 <= i < b@.len() ==> #[trigger] b@[i] < 0x80)
            ==> s@ == b@.map_values(|x: u8| x as char)),
{
    match std::str::from_utf8(b) {
        Ok(s) => Some(s.to_owned()),
        Err(_) => None,
    }
}

// ---------------------------------------------------------------------------
// Descriptors embedded in sparse files
// ---------------------------------------------------------------------------

/// The size of a sector in bytes.
pub const DESCRIPTOR_SECTOR_SIZE: u64 = 512;

/// An embedded descriptor takes at most 20 sectors.
pub const DESCRIPTOR_MAX_LEN: u64 = 10240;

/// Position of the first NUL byte of `d`.
pub open spec fn first_nul(d: Seq<u8>) -> Option<int>
    decreases d.len(),
{
    if d.len() == 0 {
        None
    } else if d[0] == 0 {
        Some(0)
    } else {
        match first_nul(d.drop_first()) {
            Some(i) => Some(i + 1),
            None => None,
        }
    }
}

proof fn lemma_first_nul(d: Seq<u8>)
    ensures
        first_nul(d) matches Some(i) ==> 0 <= i < d.len() && d[i] == 0 && forall|j: int|
            0 <= j < i ==> d[j] != 0,
        first_nul(d) is None ==> forall|j: int| 0 <= j < d.len() ==> d[j] != 0,
    decreases d.len(),
{
    if d.len() > 0 {
        lemma_first_nul(d.drop_first());
        if d[0] != 0 {
            assert forall|j: int| 1 <= j < d.len() implies d[j] == d.drop_first()[j - 1] by {}
        }
    }
}

/// The bytes of the descriptor embedded at sector `offset` of a file with
/// content `c`: at most 20 sectors are read, up to the first NUL byte, or
/// all of them when there is no NUL byte. `None` when nothing can be read
/// there.
pub open spec fn embedded_descriptor_bytes(c: Seq<u8>, offset: u64) -> Option<Seq<u8>> {
    let start = offset * DESCRIPTOR_SECTOR_SIZE;
    if start >= c.len() {
        None
    } else {
        let d = c.subrange(start, min(start + DESCRIPTOR_MAX_LEN, c.len() as int));
        match first_nul(d) {
            Some(k) => Some(d.take(k)),
            None => Some(d),
        }
    }
}

/// Reads the descriptor embedded at sector `offset` of a sparse file (see
/// `embedded_descriptor_bytes`) as text; offset 0 means no descriptor,
/// which reads as the empty text.
pub fn read_descriptor_internal<S: BytesSource>(src: &S, offset: u64) -> (r: Result<
    String,
    std::io::Error,
>)
    ensures
        offset == 0 ==> (r matches Ok(s) && s@ == Seq::<char>::empty()),
        offset > 0 ==> match embedded_descriptor_bytes(src.content(), offset) {
            Some(b) => r matches Ok(s) ==> s@ == utf8_lossy(b),
            None => r is Err,
        },
        offset > 0 && embedded_descriptor_bytes(src.content(), offset) is Some
            && src.reads_never_fail() ==> r is Ok,
{
    if offset == 0 {
        return Ok(String::new());
    }
    let len = src.end();
    let start = match offset.checked_mul(DESCRIPTOR_SECTOR_SIZE) {
        Some(x) => x,
        None => return Err(invalid_data("descriptor offset out of range")),
    };
    if start >= len {
        return Err(unexpected_eof("no descriptor at the given offset"));
    }
    let stop = if len - start > DESCRIPTOR_MAX_LEN {
        start + DESCRIPTOR_MAX_LEN
    } else {
        len
    };
    let d = read_range(src, start, stop)?;
    let ghost c = src.content();
    assert(d@ == c.subrange(start as int, min(start + DESCRIPTOR_MAX_LEN, c.len() as int)));
    proof {
        lemma_first_nul(d@);
    }
    // read up to the first NUL byte, which is not part of the text
    let mut text: Vec<u8> = Vec::new();
    let mut i: usize = 0;
    while i < d.len() && d[i] != 0
        invariant
            i <= d.len(),
            text@ == d@.take(i as int),
            forall|j: int| 0 <= j < i ==> d@[j] != 0,
        decreases d.len() - i,
    {
        text.push(d[i]);
        assert(text@ =~= d@.take(i + 1));
        i = i + 1;
    }
    if i == d.len() {
        // no NUL byte: the text is every byte read
        assert(text@ =~= d@);
    }
    Ok(lossy_text(text.as_slice()))
}

// ---------------------------------------------------------------------------
// Descriptor files
// ---------------------------------------------------------------------------

/// Where the line of `c` that starts at `pos` ends: just past its `\n`, or
/// at the end of `c`.
pub open spec fn line_end(c: Seq<u8>, pos: int) -> int
    decreases c.len() - pos,
{
    if pos >= c.len() {
        c.len() as int
    } else if c[pos] == 0x0A {
        pos + 1
    } else {
        line_end(c, pos + 1)
    }
}

/// A line that starts within the content ends after its start.
pub proof fn lemma_line_end(c: Seq<u8>, pos: int)
    requires
        0 <= pos < c.len(),
    ensures
        pos < line_end(c, pos) <= c.len(),
    decreases c.len() - pos,
{
    if c[pos] != 0x0A {
        if pos + 1 < c.len() {
            lemma_line_end(c, pos + 1);
        } else {
            assert(line_end(c, pos + 1) == c.len());
        }
    }
}

/// Reads the line of the source that starts at `pos`, with its `\n`, and
/// where it ends.
fn read_line_at<S: BytesSource>(src: &S, pos: u64) -> (r: Result<(Vec<u8>, u64), std::io::Error>)
    requires
        pos < src.content().len(),
    ensures
        r matches Ok((l, next)) ==> next == line_end(src.content(), pos as int) && l@
            == src.content().subrange(pos as int, next as int),
        src.reads_never_fail() ==> r is Ok,
{
    let ghost c = src.content();
    let len = src.end();
    let mut out: Vec<u8> = Vec::new();
    let mut p = pos;
    loop
        invariant
            c == src.content(),
            len == c.len(),
            pos <= p <= len,
            out@ == c.subrange(pos as int, p as int),
            line_end(c, pos as int) == line_end(c, p as int),
        decreases len - p,
    {
        if p == len {
            return Ok((out, len));
        }
        let q = if len - p > 256 {
            p + 256
        } else {
            len
        };
        let chunk = read_range(src, p, q)?;
        let mut i: usize = 0;
        while i < chunk.len()
            invariant
                c == src.content(),
                len == c.len(),
                chunk@ == c.subrange(p as int, q as int),
                pos <= p < q <= len,
                i <= chunk.len(),
                out@ == c.subrange(pos as int, p + i),
                line_end(c, pos as int) == line_end(c, p + i),
            decreases chunk.len() - i,
        {
            let b = chunk[i];
            out.push(b);
            assert(out@ =~= c.subrange(pos as int, p + i + 1));
            if b == 0x0A {
                return Ok((out, p + i as u64 + 1));
            }
            i = i + 1;
        }
        p = q;
    }
}

/// A descriptor file starts with this line, blank lines aside.
pub open spec fn descriptor_magic() -> Seq<char> {
    seq![
        '#', ' ', 'D', 'i', 's', 'k', ' ', 'D', 'e', 's', 'c', 'r', 'i', 'p', 't', 'o', 'r', 'F',
        'i', 'l', 'e',
    ]
}

/// What a line of a file tells while looking for the descriptor file magic.
#[derive(Debug, PartialEq, Eq, Clone, Copy, Structural)]
pub enum LineClass {
    /// the magic line: the file is a descriptor file
    Magic,
    /// a blank line, passed over
    Blank,
    /// anything else: the file is no descriptor file
    Other,
}

/// The class of a line, by its text without trailing whitespace.
pub open spec fn spec_line_class(t: Seq<char>) -> LineClass {
    if trim_end(t) == descriptor_magic() {
        LineClass::Magic
    } else if trim_end(t).len() == 0 {
        LineClass::Blank
    } else {
        LineClass::Other
    }
}

/// Classifies a line of a file that may be a descriptor file.
pub fn classify_line(line: &str) -> (r: LineClass)
    ensures
        r == spec_line_class(line@),
{
    let v = str_chars(line);
    let end = skip_ws_back(&v, 0, v.len());
    assert(v@.subrange(0, v.len() as int) =~= v@);
    let magic: [char; 21] = [
        '#',
        ' ',
        'D',
        'i',
        's',
        'k',
        ' ',
        'D',
        'e',
        's',
        'c',
        'r',
        'i',
        'p',
        't',
        'o',
        'r',
        'F',
        'i',
        'l',
        'e',
    ];
    assert(magic@ =~= descriptor_magic());
    if end == magic.len() {
        let mut i: usize = 0;
        while i < magic.len()
            invariant
                end == magic.len() == 21,
                end <= v.len(),
                magic@ == descriptor_magic(),
                v@.subrange(0, end as int) == trim_end(line@),
                i <= 21,
                forall|j: int| 0 <= j < i ==> v@[j] == magic@[j],
            decreases 21 - i,
        {
            if v[i] != magic[i] {
                assert(v@.subrange(0, end as int)[i as int] != descriptor_magic()[i as int]);
                return LineClass::Other;
            }
            i = i + 1;
        }
        assert(v@.subrange(0, end as int) =~= descriptor_magic());
        LineClass::Magic
    } else if end == 0 {
        LineClass::Blank
    } else {
        LineClass::Other
    }
}

/// What reading a file as a descriptor file gives.
pub enum DescriptorOutcome {
    /// the text of the descriptor file
    Text(Seq<char>),
    /// the file is no descriptor file
    Unrecognized,
    /// the file does not hold UTF-8 text where it is read
    BadText,
}

/// Reading the file with content `c` as a descriptor file from the line at
/// `pos` on, `acc` being the text of the blank lines before it: the first
/// line that is not blank must be the magic line, after which the whole
/// file is the descriptor; a file of blank lines is no descriptor file.
pub open spec fn descriptor_from(c: Seq<u8>, pos: int, acc: Seq<char>) -> DescriptorOutcome
    decreases c.len() - pos,
{
    if pos < 0 || pos >= c.len() {
        DescriptorOutcome::Unrecognized
    } else {
        proof {
            lemma_line_end(c, pos);
        }
        let next = line_end(c, pos);
        match utf8_decoded(c.subrange(pos, next)) {
            None => DescriptorOutcome::BadText,
            Some(t) => match spec_line_class(t) {
                LineClass::Magic => match utf8_decoded(c.subrange(next, c.len() as int)) {
                    Some(rest) => DescriptorOutcome::Text(acc + t + rest),
                    None => DescriptorOutcome::BadText,
                },
                LineClass::Blank => descriptor_from(c, next, acc + t),
                LineClass::Other => DescriptorOutcome::Unrecognized,
            },
        }
    }
}

/// Reading the file with content `c` as a descriptor file.
pub open spec fn spec_descriptor_file(c: Seq<u8>) -> DescriptorOutcome {
    descriptor_from(c, 0, Seq::empty())
}

fn unrecognized() -> (e: OpenError)
    ensures
        e.kind == OpenErrorKind::DescriptorError(DescriptorError::UnrecognizedDescriptor),
        e.path@ == Seq::<char>::empty(),
{
    OpenError::from_kind(OpenErrorKind::DescriptorError(DescriptorError::UnrecognizedDescriptor))
}

fn io_failure(e: std::io::Error) -> (r: OpenError)
    ensures
        r.kind == OpenErrorKind::IoError(IoError::IoError(e)),
        r.path@ == Seq::<char>::empty(),
{
    OpenError::from_kind(OpenErrorKind::IoError(IoError::IoError(e)))
}

/// Reads a descriptor file: its lines are read one at a time until the
/// magic line shows that it is one (blank lines are passed over), so that a
/// large file of another kind is not read whole. The result is the whole
/// file as text.
pub fn read_descriptor_file<S: BytesSource>(src: &S) -> (r: Result<String, OpenError>)
    ensures
        r matches Ok(s) ==> spec_descriptor_file(src.content()) == DescriptorOutcome::Text(s@),
        !(spec_descriptor_file(src.content()) is Text) ==> r is Err,
        (r matches Err(e) && e.kind == OpenErrorKind::DescriptorError(
            DescriptorError::UnrecognizedDescriptor,
        )) ==> spec_descriptor_file(src.content()) is Unrecognized,
        spec_descriptor_file(src.content()) is Text && src.reads_never_fail() ==> r is Ok,
        spec_descriptor_file(src.content()) is Unrecognized && src.reads_never_fail() ==> (r matches Err(
            e,
        ) && e.kind == OpenErrorKind::DescriptorError(DescriptorError::UnrecognizedDescriptor)),
        spec_descriptor_file(src.content()) is BadText ==> (r matches Err(e) && e.kind is IoError),
{
    let ghost c = src.content();
    let len = src.end();
    let mut desc = String::new();
    let mut pos: u64 = 0;
    loop
        invariant
            c == src.content(),
            len == c.len(),
            pos <= len,
            spec_descriptor_file(c) == descriptor_from(c, pos as int, desc@),
        decreases len - pos,
    {
        if pos >= len {
            return Err(unrecognized());
        }
        proof {
            lemma_line_end(c, pos as int);
        }
        let (line, next) = match read_line_at(src, pos) {
            Ok(x) => x,
            Err(e) => return Err(io_failure(e)),
        };
        let text = match decode_utf8(line.as_slice()) {
            Some(t) => t,
            None => return Err(io_failure(invalid_data("stream did not contain valid UTF-8"))),
        };
        match classify_line(text.as_str()) {
            LineClass::Magic => {
                // this is a descriptor file: read the rest
                desc.append(text.as_str());
                let rest = match read_range(src, next, len) {
                    Ok(b) => b,
                    Err(e) => return Err(io_failure(e)),
                };
                let rest_text = match decode_utf8(rest.as_slice()) {
                    Some(t) => t,
                    None => return Err(
                        io_failure(invalid_data("stream did not contain valid UTF-8")),
                    ),
                };
                desc.append(rest_text.as_str());
                return Ok(desc);
            },
            LineClass::Blank => {
                desc.append(text.as_str());
                pos = next;
            },
            LineClass::Other => {
                return Err(unrecognized());
            },
        }
    }
}

// ---------------------------------------------------------------------------
// The descriptor of an image file
// ---------------------------------------------------------------------------

/// The descriptor text of an image file with content `c`: a file with no
/// sparse signature is a descriptor file; a VMDK4 file embeds its
/// descriptor; other sparse files hold none. `None` when it cannot be read.
pub open spec fn spec_image_descriptor(c: Seq<u8>) -> Option<Seq<char>> {
    if c.len() < 8 {
        None
    } else {
        match spec_file_type(c) {
            None => match spec_descriptor_file(c) {
                DescriptorOutcome::Text(t) => Some(t),
                _ => None,
            },
            Some(FileType::Vmdk4) => match spec_vmdk4_read(c) {
                Some(h) => if h.desc_offset == 0 {
                    Some(Seq::empty())
                } else {
                    match embedded_descriptor_bytes(c, h.desc_offset) {
                        Some(b) => Some(utf8_lossy(b)),
                        None => None,
                    }
                },
                None => None,
            },
            _ => None,
        }
    }
}

/// Reads the descriptor of an image file (see `spec_image_descriptor`).
pub fn read_image_descriptor<S: BytesSource>(src: &S) -> (r: Result<String, OpenError>)
    ensures
        r matches Ok(s) ==> spec_image_descriptor(src.content()) == Some(s@),
        spec_image_descriptor(src.content()) is None ==> r is Err,
        spec_image_descriptor(src.content()) is Some && src.reads_never_fail() ==> r is Ok,
{
    let ft = match check_signature(src) {
        Ok(ft) => ft,
        Err(e) => return Err(io_failure(e)),
    };
    match ft {
        None => read_descriptor_file(src),
        Some(FileType::Vmdk4) => {
            let h = match Vmdk4Header::from_reader(src) {
                Ok(h) => h,
                Err(e) => return Err(
                    OpenError::from_kind(
                        OpenErrorKind::DeserializationFailed(DeserializationError("Vmdk4Header", e)),
                    ),
                ),
            };
            match read_descriptor_internal(src, h.desc_offset) {
                Ok(s) => Ok(s),
                Err(e) => Err(io_failure(e)),
            }
        },
        Some(_) => Err(unrecognized()),
    }
}

// ---------------------------------------------------------------------------
// The parent of a delta link
// ---------------------------------------------------------------------------

/// The start of the line that names the parent of a delta link.
pub open spec fn hint_prefix() -> Seq<char> {
    seq![
        'p', 'a', 'r', 'e', 'n', 't', 'F', 'i', 'l', 'e', 'N', 'a', 'm', 'e', 'H', 'i', 'n', 't',
        '=', '"',
    ]
}

/// The parent file name a descriptor line gives: a line that starts with
/// `parentFileNameHint="` gives the characters after it up to the next `"`
/// (or the end of the line), provided there is at least one.
pub open spec fn spec_line_hint(l: Seq<char>) -> Option<Seq<char>> {
    let n = hint_prefix().len();
    if l.len() <= n || l.take(n as int) != hint_prefix() || l[n as int] == '"' {
        None
    } else {
        let rest = l.skip(n as int);
        match first_index(rest, '"') {
            Some(i) => Some(rest.take(i)),
            None => Some(rest),
        }
    }
}

/// The parent file name the first line that gives one gives.
pub open spec fn spec_first_hint(ls: Seq<Seq<char>>) -> Option<Seq<char>>
    decreases ls.len(),
{
    if ls.len() == 0 {
        None
    } else {
        match spec_line_hint(ls[0]) {
            Some(h) => Some(h),
            None => spec_first_hint(ls.drop_first()),
        }
    }
}

/// The parent file name `v[lo..hi]` gives as a descriptor line.
fn line_hint(s: &str, v: &Vec<char>, lo: usize, hi: usize) -> (r: Option<String>)
    requires
        v@ == s@,
        lo <= hi <= v.len(),
    ensures
        match r {
            Some(s) => spec_line_hint(v@.subrange(lo as int, hi as int)) == Some(s@),
            None => spec_line_hint(v@.subrange(lo as int, hi as int)) is None,
        },
{
    let ghost l = v@.subrange(lo as int, hi as int);
    let prefix: [char; 20] = [
        'p',
        'a',
        'r',
        'e',
        'n',
        't',
        'F',
        'i',
        'l',
        'e',
        'N',
        'a',
        'm',
        'e',
        'H',
        'i',
        'n',
        't',
        '=',
        '"',
    ];
    assert(prefix@ =~= hint_prefix());
    if hi - lo <= 20 {
        return None;
    }
    let mut i: usize = 0;
    while i < 20
        invariant
            lo + 20 < hi <= v.len(),
            i <= 20,
            prefix@ == hint_prefix(),
            l == v@.subrange(lo as int, hi as int),
            forall|j: int| 0 <= j < i ==> v@[lo + j] == prefix@[j],
        decreases 20 - i,
    {
        if v[lo + i] != prefix[i] {
            assert(l.take(20)[i as int] != hint_prefix()[i as int]);
            return None;
        }
        i = i + 1;
    }
    assert(l.take(20) =~= hint_prefix());
    let a = lo + 20;
    if v[a] == '"' {
        return None;
    }
    assert(l.skip(20) =~= v@.subrange(a as int, hi as int));
    let e = match find_first(v, a, hi, '"') {
        Some(q) => {
            assert(l.skip(20).take(q - a) =~= v@.subrange(a as int, q as int));
            q
        },
        None => hi,
    };
    Some(s.substring_char(a, e).to_owned())
}

/// The parent file name a descriptor gives: the first of its lines that
/// starts with `parentFileNameHint="` and names one.
pub fn extract_parent_fn_hint(descriptor: &str) -> (r: Option<String>)
    ensures
        match r {
            Some(s) => spec_first_hint(lines(descriptor@)) == Some(s@),
            None => spec_first_hint(lines(descriptor@)) is None,
        },
{
    let v = str_chars(descriptor);
    let len = v.len();
    let mut pos: usize = 0;
    assert(v@.subrange(0, len as int) =~= v@);
    while pos < len
        invariant
            v@ == descriptor@,
            len == v.len(),
            pos <= len,
            spec_first_hint(lines(v@)) == spec_first_hint(
                lines(v@.subrange(pos as int, len as int)),
            ),
        decreases len - pos,
    {
        let ghost sub = v@.subrange(pos as int, len as int);
        let (line_end, next) = match find_first(&v, pos, len, '\n') {
            Some(nl) => {
                proof {
                    assert(sub.take(nl - pos) =~= v@.subrange(pos as int, nl as int));
                    assert(sub.skip(nl - pos + 1) =~= v@.subrange(nl + 1, len as int));
                }
                if nl > pos && v[nl - 1] == '\r' {
                    assert(v@.subrange(pos as int, nl as int).drop_last() =~= v@.subrange(
                        pos as int,
                        nl - 1,
                    ));
                    (nl - 1, nl + 1)
                } else {
                    (nl, nl + 1)
                }
            },
            None => (len, len),
        };
        let ghost l = v@.subrange(pos as int, line_end as int);
        let ghost rest_lines = lines(v@.subrange(next as int, len as int));
        assert(lines(sub) == seq![l] + rest_lines) by {
            if next == len && line_end == len {
                assert(v@.subrange(next as int, len as int) =~= Seq::<char>::empty());
                assert(l =~= sub);
            }
        }
        assert((seq![l] + rest_lines).drop_first() =~= rest_lines);
        assert((seq![l] + rest_lines)[0] == l);
        if let Some(h) = line_hint(descriptor, &v, pos, line_end) {
            return Some(h);
        }
        pos = next;
    }
    assert(v@.subrange(len as int, len as int) =~= Seq::<char>::empty());
    None
}

} // verus!
