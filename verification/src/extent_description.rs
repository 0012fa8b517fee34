use crate::text::{
    find_first, find_last, lines, parse_u64, parse_u64_range, rsplit_once, skip_ws, skip_ws_back,
    split_once, str_chars, trim, trim_start,
};
use vstd::prelude::*;

verus! {

/// Access mode of an extent.
#[derive(Debug, PartialEq, Eq, Clone, Copy, Structural)]
pub enum AccessMode {
    NoAccess,
    RdOnly,
    Rw,
}

/// A word that names no access mode.
#[derive(Debug, PartialEq, Eq, Clone, Copy, Structural)]
pub struct ParseAccessModeError;

/// Kind of an extent.
#[derive(Debug, PartialEq, Eq, Clone, Copy, Structural)]
pub enum ExtentKind {
    Sparse,
    Flat,
    Zero,
    Vmfs,
    VmfsSparse,
    VmfsRdm,
    VmfsRaw,
    SeSparse,
}

/// A word that names no extent kind.
#[derive(Debug, PartialEq, Eq, Clone, Copy, Structural)]
pub struct ParseExtentKindError;

/// A line of the descriptor's extent section that could not be read.
#[derive(Debug, PartialEq, Eq, Clone, Copy, Structural)]
pub struct ParseExtentDescriptionError;

/// `t` and `w` hold the same characters.
pub open spec fn is_word(t: Seq<char>, w: Seq<char>) -> bool {
    t == w
}

/// The access mode `t` names: `NOACCESS`, `RDONLY` or `RW`.
pub open spec fn spec_access_mode(t: Seq<char>) -> Option<AccessMode> {
    if is_word(t, seq!['N', 'O', 'A', 'C', 'C', 'E', 'S', 'S']) {
        Some(AccessMode::NoAccess)
    } else if is_word(t, seq!['R', 'D', 'O', 'N', 'L', 'Y']) {
        Some(AccessMode::RdOnly)
    } else if is_word(t, seq!['R', 'W']) {
        Some(AccessMode::Rw)
    } else {
        None
    }
}

/// The extent kind `t` names.
pub open spec fn spec_extent_kind(t: Seq<char>) -> Option<ExtentKind> {
    if is_word(t, seq!['S', 'P', 'A', 'R', 'S', 'E']) {
        Some(ExtentKind::Sparse)
    } else if is_word(t, seq!['F', 'L', 'A', 'T']) {
        Some(ExtentKind::Flat)
    } else if is_word(t, seq!['Z', 'E', 'R', 'O']) {
        Some(ExtentKind::Zero)
    } else if is_word(t, seq!['V', 'M', 'F', 'S']) {
        Some(ExtentKind::Vmfs)
    } else if is_word(t, seq!['V', 'M', 'F', 'S', 'S', 'P', 'A', 'R', 'S', 'E']) {
        Some(ExtentKind::VmfsSparse)
    } else if is_word(t, seq!['V', 'M', 'F', 'S', 'R', 'D', 'M']) {
        Some(ExtentKind::VmfsRdm)
    } else if is_word(t, seq!['V', 'M', 'F', 'S', 'R', 'A', 'W']) {
        Some(ExtentKind::VmfsRaw)
    } else if is_word(t, seq!['S', 'E', 'S', 'P', 'A', 'R', 'S', 'E']) {
        Some(ExtentKind::SeSparse)
    } else {
        None
    }
}

/// Whether `v[lo..hi]` holds exactly the characters of `w`.
fn range_is_word(v: &Vec<char>, lo: usize, hi: usize, w: &[char]) -> (r: bool)
    requires
        lo <= hi <= v.len(),
    ensures
        r == is_word(v@.subrange(lo as int, hi as int), w@),
{
    if hi - lo != w.len() {
        return false;
    }
    let mut i: usize = 0;
    while i < w.len()
        invariant
            lo <= hi <= v.len(),
            hi - lo == w.len(),
            0 <= i <= w.len(),
            forall|j: int| 0 <= j < i ==> v@[lo + j] == w@[j],
        decreases w.len() - i,
    {
        if v[lo + i] != w[i] {
            assert(v@.subrange(lo as int, hi as int)[i as int] != w@[i as int]);
            return false;
        }
        i = i + 1;
    }
    assert(v@.subrange(lo as int, hi as int) =~= w@);
    true
}

fn access_mode_range(v: &Vec<char>, lo: usize, hi: usize) -> (r: Option<AccessMode>)
    requires
        lo <= hi <= v.len(),
    ensures
        r == spec_access_mode(v@.subrange(lo as int, hi as int)),
{
    if range_is_word(v, lo, hi, &['N', 'O', 'A', 'C', 'C', 'E', 'S', 'S']) {
        Some(AccessMode::NoAccess)
    } else if range_is_word(v, lo, hi, &['R', 'D', 'O', 'N', 'L', 'Y']) {
        Some(AccessMode::RdOnly)
    } else if range_is_word(v, lo, hi, &['R', 'W']) {
        Some(AccessMode::Rw)
    } else {
        None
    }
}

fn extent_kind_range(v: &Vec<char>, lo: usize, hi: usize) -> (r: Option<ExtentKind>)
    requires
        lo <= hi <= v.len(),
    ensures
        r == spec_extent_kind(v@.subrange(lo as int, hi as int)),
{
    if range_is_word(v, lo, hi, &['S', 'P', 'A', 'R', 'S', 'E']) {
        Some(ExtentKind::Sparse)
    } else if range_is_word(v, lo, hi, &['F', 'L', 'A', 'T']) {
        Some(ExtentKind::Flat)
    } else if range_is_word(v, lo, hi, &['Z', 'E', 'R', 'O']) {
        Some(ExtentKind::Zero)
    } else if range_is_word(v, lo, hi, &['V', 'M', 'F', 'S']) {
        Some(ExtentKind::Vmfs)
    } else if range_is_word(v, lo, hi, &['V', 'M', 'F', 'S', 'S', 'P', 'A', 'R', 'S', 'E']) {
        Some(ExtentKind::VmfsSparse)
    } else if range_is_word(v, lo, hi, &['V', 'M', 'F', 'S', 'R', 'D', 'M']) {
        Some(ExtentKind::VmfsRdm)
    } else if range_is_word(v, lo, hi, &['V', 'M', 'F', 'S', 'R', 'A', 'W']) {
        Some(ExtentKind::VmfsRaw)
    } else if range_is_word(v, lo, hi, &['S', 'E', 'S', 'P', 'A', 'R', 'S', 'E']) {
        Some(ExtentKind::SeSparse)
    } else {
        None
    }
}

impl AccessMode {
    /// Reads an access mode word: `NOACCESS`, `RDONLY` or `RW`.
    pub fn from_word(s: &str) -> (r: Result<AccessMode, ParseAccessModeError>)
        ensures
            match r {
                Ok(m) => spec_access_mode(s@) == Some(m),
                Err(_) => spec_access_mode(s@) is None,
            },
    {
        let v = str_chars(s);
        assert(v@.subrange(0, v@.len() as int) =~= v@);
        match access_mode_range(&v, 0, v.len()) {
            Some(m) => Ok(m),
            None => Err(ParseAccessModeError),
        }
    }
}

impl std::str::FromStr for AccessMode {
    type Err = ParseAccessModeError;

    fn from_str(s: &str) -> (r: Result<AccessMode, ParseAccessModeError>)
        ensures
            match r {
                Ok(m) => spec_access_mode(s@) == Some(m),
                Err(_) => spec_access_mode(s@) is None,
            },
    {
        AccessMode::from_word(s)
    }
}

impl ExtentKind {
    /// Reads an extent kind word such as `SPARSE` or `FLAT`.
    pub fn from_word(s: &str) -> (r: Result<ExtentKind, ParseExtentKindError>)
        ensures
            match r {
                Ok(k) => spec_extent_kind(s@) == Some(k),
                Err(_) => spec_extent_kind(s@) is None,
            },
    {
        let v = str_chars(s);
        assert(v@.subrange(0, v@.len() as int) =~= v@);
        match extent_kind_range(&v, 0, v.len()) {
            Some(k) => Ok(k),
            None => Err(ParseExtentKindError),
        }
    }
}

impl std::str::FromStr for ExtentKind {
    type Err = ParseExtentKindError;

    fn from_str(s: &str) -> (r: Result<ExtentKind, ParseExtentKindError>)
        ensures
            match r {
                Ok(k) => spec_extent_kind(s@) == Some(k),
                Err(_) => spec_extent_kind(s@) is None,
            },
    {
        ExtentKind::from_word(s)
    }
}

/// One line of a descriptor's extent section, as written: access mode,
/// size in sectors, kind, and the optional quoted file name and offset.
#[derive(Debug, PartialEq, Eq)]
pub struct ExtentDescriptionLine {
    pub access_mode: AccessMode,
    pub sectors: u64,
    pub kind: ExtentKind,
    pub filename: Option<String>,
    pub offset: Option<u64>,
}

/// What an extent description line says, with the file name as characters.
pub struct LineModel {
    pub access_mode: AccessMode,
    pub sectors: u64,
    pub kind: ExtentKind,
    pub filename: Option<Seq<char>>,
    pub offset: Option<u64>,
}

impl View for ExtentDescriptionLine {
    type V = LineModel;

    open spec fn view(&self) -> LineModel {
        LineModel {
            access_mode: self.access_mode,
            sectors: self.sectors,
            kind: self.kind,
            filename: match self.filename {
                Some(f) => Some(f@),
                None => None,
            },
            offset: self.offset,
        }
    }
}

/// Reads the optional tail of an extent line, after its kind: nothing, or a
/// double-quoted file name (up to the last double quote) optionally followed
/// by an offset.
pub open spec fn spec_parse_line_tail(s: Seq<char>) -> Option<(Option<Seq<char>>, Option<u64>)> {
    let s = trim_start(s);
    if s.len() == 0 {
        Some((None, None))
    } else if s[0] != '"' {
        None
    } else {
        match rsplit_once(s.drop_first(), '"') {
            None => None,
            Some((name, rest)) => {
                let rest = trim_start(rest);
                if rest.len() == 0 {
                    Some((Some(name), None))
                } else {
                    match parse_u64(rest) {
                        Some(o) => Some((Some(name), Some(o))),
                        None => None,
                    }
                }
            },
        }
    }
}

/// Reads an extent description line: after trimming, an access mode, a
/// sector count and a kind, each followed by a space, then the tail.
pub open spec fn spec_parse_line(s: Seq<char>) -> Option<LineModel> {
    let s = trim_start(trim(s));
    match split_once(s, ' ') {
        None => None,
        Some((tok, s)) => match spec_access_mode(tok) {
            None => None,
            Some(access_mode) => match split_once(trim_start(s), ' ') {
                None => None,
                Some((tok, s)) => match parse_u64(tok) {
                    None => None,
                    Some(sectors) => match split_once(trim_start(s), ' ') {
                        None => None,
                        Some((tok, s)) => match spec_extent_kind(tok) {
                            None => None,
                            Some(kind) => match spec_parse_line_tail(s) {
                                None => None,
                                Some((filename, offset)) => Some(
                                    LineModel { access_mode, sectors, kind, filename, offset },
                                ),
                            },
                        },
                    },
                },
            },
        },
    }
}

proof fn lemma_split_at(v: Seq<char>, a: int, sp: int, b: int)
    requires
        0 <= a <= sp < b <= v.len(),
    ensures
        v.subrange(a, b).take(sp - a) == v.subrange(a, sp),
        v.subrange(a, b).skip(sp - a + 1) == v.subrange(sp + 1, b),
{
    assert(v.subrange(a, b).take(sp - a) =~= v.subrange(a, sp));
    assert(v.subrange(a, b).skip(sp - a + 1) =~= v.subrange(sp + 1, b));
}

/// Finds the word of `v[a..b]` ending at the first space: returns the space's
/// position, with `split_once` of the range giving `[a, sp)` and `(sp, b)`.
fn split_space(v: &Vec<char>, a: usize, b: usize) -> (r: Option<usize>)
    requires
        a <= b <= v.len(),
    ensures
        match r {
            Some(sp) => a <= sp < b && split_once(v@.subrange(a as int, b as int), ' ') == Some(
                (v@.subrange(a as int, sp as int), v@.subrange(sp + 1, b as int)),
            ),
            None => split_once(v@.subrange(a as int, b as int), ' ') is None,
        },
{
    match find_first(v, a, b, ' ') {
        Some(sp) => {
            proof {
                lemma_split_at(v@, a as int, sp as int, b as int);
            }
            Some(sp)
        },
        None => None,
    }
}

/// Reads `v[a..b]` (the characters of `s`) as an extent description line.
fn parse_line_range(s: &str, v: &Vec<char>, a: usize, b: usize) -> (r: Result<
    ExtentDescriptionLine,
    ParseExtentDescriptionError,
>)
    requires
        v@ == s@,
        a <= b <= v.len(),
    ensures
        match r {
            Ok(l) => spec_parse_line(v@.subrange(a as int, b as int)) == Some(l@),
            Err(_) => spec_parse_line(v@.subrange(a as int, b as int)) is None,
        },
{
    let ghost line = v@.subrange(a as int, b as int);
    // trim, then trim the start again
    let a1 = skip_ws(v, a, b);
    let b1 = skip_ws_back(v, a1, b);
    let a2 = skip_ws(v, a1, b1);
    assert(v@.subrange(a2 as int, b1 as int) == trim_start(trim(line)));
    // access mode
    let sp = match split_space(v, a2, b1) {
        Some(sp) => sp,
        None => return Err(ParseExtentDescriptionError),
    };
    let access_mode = match access_mode_range(v, a2, sp) {
        Some(m) => m,
        None => return Err(ParseExtentDescriptionError),
    };
    // sector count
    let a3 = skip_ws(v, sp + 1, b1);
    let sp = match split_space(v, a3, b1) {
        Some(sp) => sp,
        None => return Err(ParseExtentDescriptionError),
    };
    let sectors = match parse_u64_range(v, a3, sp) {
        Some(n) => n,
        None => return Err(ParseExtentDescriptionError),
    };
    // kind
    let a4 = skip_ws(v, sp + 1, b1);
    let sp = match split_space(v, a4, b1) {
        Some(sp) => sp,
        None => return Err(ParseExtentDescriptionError),
    };
    let kind = match extent_kind_range(v, a4, sp) {
        Some(k) => k,
        None => return Err(ParseExtentDescriptionError),
    };
    // optional file name and offset
    let ghost tail = v@.subrange(sp + 1, b1 as int);
    let a5 = skip_ws(v, sp + 1, b1);
    assert(v@.subrange(a5 as int, b1 as int) == trim_start(tail));
    if a5 == b1 {
        return Ok(ExtentDescriptionLine { access_mode, sectors, kind, filename: None, offset: None });
    }
    if v[a5] != '"' {
        return Err(ParseExtentDescriptionError);
    }
    assert(v@.subrange(a5 as int, b1 as int).drop_first() =~= v@.subrange(a5 + 1, b1 as int));
    let q = match find_last(v, a5 + 1, b1, '"') {
        Some(q) => q,
        None => return Err(ParseExtentDescriptionError),
    };
    proof {
        lemma_split_at(v@, a5 + 1, q as int, b1 as int);
    }
    let filename = s.substring_char(a5 + 1, q).to_owned();
    let a6 = skip_ws(v, q + 1, b1);
    if a6 == b1 {
        return Ok(
            ExtentDescriptionLine {
                access_mode,
                sectors,
                kind,
                filename: Some(filename),
                offset: None,
            },
        );
    }
    match parse_u64_range(v, a6, b1) {
        Some(o) => Ok(
            ExtentDescriptionLine {
                access_mode,
                sectors,
                kind,
                filename: Some(filename),
                offset: Some(o),
            },
        ),
        None => Err(ParseExtentDescriptionError),
    }
}

impl ExtentDescriptionLine {
    /// Reads an extent description line such as `RW 1048576 FLAT "a.vmdk" 0`.
    pub fn parse_line(s: &str) -> (r: Result<ExtentDescriptionLine, ParseExtentDescriptionError>)
        ensures
            match r {
                Ok(l) => spec_parse_line(s@) == Some(l@),
                Err(_) => spec_parse_line(s@) is None,
            },
    {
        let v = str_chars(s);
        assert(v@.subrange(0, v@.len() as int) =~= v@);
        parse_line_range(s, &v, 0, v.len())
    }
}

impl std::str::FromStr for ExtentDescriptionLine {
    type Err = ParseExtentDescriptionError;

    fn from_str(s: &str) -> (r: Result<ExtentDescriptionLine, ParseExtentDescriptionError>)
        ensures
            match r {
                Ok(l) => spec_parse_line(s@) == Some(l@),
                Err(_) => spec_parse_line(s@) is None,
            },
    {
        ExtentDescriptionLine::parse_line(s)
    }
}

/// An extent as the descriptor describes it, by kind.
#[derive(Debug, PartialEq, Eq, Clone)]
pub enum ExtentDescriptionInner {
    Sparse { filename: String },
    Flat { filename: String, offset: u64 },
    Zero,
    Vmfs { filename: String },
    VmfsSparse { filename: String },
    VmfsRdm { filename: String },
    VmfsRaw { filename: String },
    SeSparse { filename: String },
}

/// An extent description: access mode, size in sectors and kind.
#[derive(Debug, PartialEq, Eq)]
pub struct ExtentDescription {
    pub access_mode: AccessMode,
    pub sectors: u64,
    pub kind: ExtentDescriptionInner,
}

/// An extent kind with its file name as characters.
pub enum InnerModel {
    Sparse(Seq<char>),
    Flat(Seq<char>, u64),
    Zero,
    Vmfs(Seq<char>),
    VmfsSparse(Seq<char>),
    VmfsRdm(Seq<char>),
    VmfsRaw(Seq<char>),
    SeSparse(Seq<char>),
}

/// An extent description with its file name as characters.
pub struct DescriptionModel {
    pub access_mode: AccessMode,
    pub sectors: u64,
    pub kind: InnerModel,
}

impl View for ExtentDescriptionInner {
    type V = InnerModel;

    open spec fn view(&self) -> InnerModel {
        match self {
            ExtentDescriptionInner::Sparse { filename } => InnerModel::Sparse(filename@),
            ExtentDescriptionInner::Flat { filename, offset } => InnerModel::Flat(filename@, *offset),
            ExtentDescriptionInner::Zero => InnerModel::Zero,
            ExtentDescriptionInner::Vmfs { filename } => InnerModel::Vmfs(filename@),
            ExtentDescriptionInner::VmfsSparse { filename } => InnerModel::VmfsSparse(filename@),
            ExtentDescriptionInner::VmfsRdm { filename } => InnerModel::VmfsRdm(filename@),
            ExtentDescriptionInner::VmfsRaw { filename } => InnerModel::VmfsRaw(filename@),
            ExtentDescriptionInner::SeSparse { filename } => InnerModel::SeSparse(filename@),
        }
    }
}

impl View for ExtentDescription {
    type V = DescriptionModel;

    open spec fn view(&self) -> DescriptionModel {
        DescriptionModel { access_mode: self.access_mode, sectors: self.sectors, kind: self.kind@ }
    }
}

/// The extent kind a line describes, given the file name and offset it
/// holds: ZERO takes neither, FLAT takes both, SPARSE a name and no offset
/// or offset 0, the other kinds a name and no offset.
pub open spec fn spec_inner(
    kind: ExtentKind,
    filename: Option<Seq<char>>,
    offset: Option<u64>,
) -> Option<InnerModel> {
    match (kind, filename, offset) {
        (ExtentKind::Zero, None, None) => Some(InnerModel::Zero),
        (ExtentKind::Flat, Some(f), Some(o)) => Some(InnerModel::Flat(f, o)),
        (ExtentKind::Sparse, Some(f), None) => Some(InnerModel::Sparse(f)),
        (ExtentKind::Sparse, Some(f), Some(o)) => if o == 0 {
            Some(InnerModel::Sparse(f))
        } else {
            None
        },
        (ExtentKind::Vmfs, Some(f), None) => Some(InnerModel::Vmfs(f)),
        (ExtentKind::VmfsSparse, Some(f), None) => Some(InnerModel::VmfsSparse(f)),
        (ExtentKind::VmfsRdm, Some(f), None) => Some(InnerModel::VmfsRdm(f)),
        (ExtentKind::VmfsRaw, Some(f), None) => Some(InnerModel::VmfsRaw(f)),
        (ExtentKind::SeSparse, Some(f), None) => Some(InnerModel::SeSparse(f)),
        _ => None,
    }
}

/// The extent description a line gives, if its kind, file name and offset
/// fit together.
pub open spec fn spec_description(l: LineModel) -> Option<DescriptionModel> {
    match spec_inner(l.kind, l.filename, l.offset) {
        Some(kind) => Some(DescriptionModel { access_mode: l.access_mode, sectors: l.sectors, kind }),
        None => None,
    }
}

/// Law of extent descriptions: the description a line gives keeps the
/// line's access mode, size, kind and file name, and a FLAT line's offset.
pub proof fn lemma_description_keeps_line(l: LineModel)
    requires
        spec_description(l) is Some,
    ensures
        ({
            let d = spec_description(l).unwrap();
            &&& d.access_mode == l.access_mode
            &&& d.sectors == l.sectors
            &&& spec_kind_of(d.kind) == l.kind
            &&& match l.filename {
                Some(f) => inner_filename(d.kind) == f,
                None => d.kind is Zero,
            }
            &&& (d.kind matches InnerModel::Flat(_, o) ==> l.offset == Some(o))
        }),
{
}

impl ExtentDescription {
    /// The extent description an extent description line gives.
    pub fn from_line(edl: ExtentDescriptionLine) -> (r: Result<
        ExtentDescription,
        ParseExtentDescriptionError,
    >)
        ensures
            match r {
                Ok(d) => spec_description(edl@) == Some(d@),
                Err(_) => spec_description(edl@) is None,
            },
            r matches Ok(d) ==> spec_kind_of(d.kind@) == edl.kind && d.access_mode == edl.access_mode
                && d.sectors == edl.sectors,
    {
        let ghost l = edl@;
        proof {
            if spec_description(l) is Some {
                lemma_description_keeps_line(l);
            }
        }
        let ExtentDescriptionLine { access_mode, sectors, kind, filename, offset } = edl;
        let inner = match (kind, filename, offset) {
            (ExtentKind::Zero, None, None) => ExtentDescriptionInner::Zero,
            (ExtentKind::Flat, Some(filename), Some(offset)) => ExtentDescriptionInner::Flat {
                filename,
                offset,
            },
            (ExtentKind::Sparse, Some(filename), None) => ExtentDescriptionInner::Sparse {
                filename,
            },
            (ExtentKind::Sparse, Some(filename), Some(0)) => ExtentDescriptionInner::Sparse {
                filename,
            },
            (ExtentKind::Vmfs, Some(filename), None) => ExtentDescriptionInner::Vmfs { filename },
            (ExtentKind::VmfsSparse, Some(filename), None) => ExtentDescriptionInner::VmfsSparse {
                filename,
            },
            (ExtentKind::VmfsRdm, Some(filename), None) => ExtentDescriptionInner::VmfsRdm {
                filename,
            },
            (ExtentKind::VmfsRaw, Some(filename), None) => ExtentDescriptionInner::VmfsRaw {
                filename,
            },
            (ExtentKind::SeSparse, Some(filename), None) => ExtentDescriptionInner::SeSparse {
                filename,
            },
            _ => return Err(ParseExtentDescriptionError),
        };
        Ok(ExtentDescription { access_mode, sectors, kind: inner })
    }

    /// The name of the extent's file; ZERO extents have none.
    pub fn filename(&self) -> (r: Option<&str>)
        ensures
            match r {
                Some(f) => match self.kind@ {
                    InnerModel::Sparse(g) => f@ == g,
                    InnerModel::Flat(g, _) => f@ == g,
                    InnerModel::Zero => false,
                    InnerModel::Vmfs(g) => f@ == g,
                    InnerModel::VmfsSparse(g) => f@ == g,
                    InnerModel::VmfsRdm(g) => f@ == g,
                    InnerModel::VmfsRaw(g) => f@ == g,
                    InnerModel::SeSparse(g) => f@ == g,
                },
                None => self.kind@ is Zero,
            },
    {
        match &self.kind {
            ExtentDescriptionInner::Sparse { filename } => Some(filename.as_str()),
            ExtentDescriptionInner::Flat { filename, .. } => Some(filename.as_str()),
            ExtentDescriptionInner::Zero => None,
            ExtentDescriptionInner::Vmfs { filename } => Some(filename.as_str()),
            ExtentDescriptionInner::VmfsSparse { filename } => Some(filename.as_str()),
            ExtentDescriptionInner::VmfsRdm { filename } => Some(filename.as_str()),
            ExtentDescriptionInner::VmfsRaw { filename } => Some(filename.as_str()),
            ExtentDescriptionInner::SeSparse { filename } => Some(filename.as_str()),
        }
    }
}

impl ExtentKind {
    /// The kind of an extent description.
    pub fn of_inner(edi: &ExtentDescriptionInner) -> (r: ExtentKind)
        ensures
            r == spec_kind_of(edi@),
    {
        match edi {
            ExtentDescriptionInner::Sparse { .. } => ExtentKind::Sparse,
            ExtentDescriptionInner::Flat { .. } => ExtentKind::Flat,
            ExtentDescriptionInner::Zero => ExtentKind::Zero,
            ExtentDescriptionInner::Vmfs { .. } => ExtentKind::Vmfs,
            ExtentDescriptionInner::VmfsSparse { .. } => ExtentKind::VmfsSparse,
            ExtentDescriptionInner::VmfsRdm { .. } => ExtentKind::VmfsRdm,
            ExtentDescriptionInner::VmfsRaw { .. } => ExtentKind::VmfsRaw,
            ExtentDescriptionInner::SeSparse { .. } => ExtentKind::SeSparse,
        }
    }
}

impl<'a> From<&'a ExtentDescriptionInner> for ExtentKind {
    fn from(edi: &'a ExtentDescriptionInner) -> (r: ExtentKind) {
        ExtentKind::of_inner(edi)
    }
}

impl<'a> vstd::std_specs::convert::FromSpecImpl<&'a ExtentDescriptionInner> for ExtentKind {
    open spec fn obeys_from_spec() -> bool {
        true
    }

    open spec fn from_spec(v: &'a ExtentDescriptionInner) -> ExtentKind {
        spec_kind_of(v@)
    }
}

/// The name of an extent's file, empty for a ZERO extent.
pub open spec fn inner_filename(m: InnerModel) -> Seq<char> {
    match m {
        InnerModel::Sparse(g) => g,
        InnerModel::Flat(g, _) => g,
        InnerModel::Zero => Seq::empty(),
        InnerModel::Vmfs(g) => g,
        InnerModel::VmfsSparse(g) => g,
        InnerModel::VmfsRdm(g) => g,
        InnerModel::VmfsRaw(g) => g,
        InnerModel::SeSparse(g) => g,
    }
}

/// The kind of an extent description model.
pub open spec fn spec_kind_of(m: InnerModel) -> ExtentKind {
    match m {
        InnerModel::Sparse(_) => ExtentKind::Sparse,
        InnerModel::Flat(_, _) => ExtentKind::Flat,
        InnerModel::Zero => ExtentKind::Zero,
        InnerModel::Vmfs(_) => ExtentKind::Vmfs,
        InnerModel::VmfsSparse(_) => ExtentKind::VmfsSparse,
        InnerModel::VmfsRdm(_) => ExtentKind::VmfsRdm,
        InnerModel::VmfsRaw(_) => ExtentKind::VmfsRaw,
        InnerModel::SeSparse(_) => ExtentKind::SeSparse,
    }
}

/// A descriptor line belongs to the extent section when, after its leading
/// whitespace, its first space-separated word is an access mode.
pub open spec fn is_extent_line(l: Seq<char>) -> bool {
    match split_once(trim_start(l), ' ') {
        Some((a, _)) => spec_access_mode(a) is Some,
        None => false,
    }
}

/// The extent descriptions of the given descriptor lines, in order; `None`
/// when an extent section line cannot be read.
pub open spec fn spec_extract(ls: Seq<Seq<char>>) -> Option<Seq<DescriptionModel>>
    decreases ls.len(),
{
    if ls.len() == 0 {
        Some(Seq::empty())
    } else {
        let rest = spec_extract(ls.drop_first());
        if is_extent_line(ls[0]) {
            match spec_parse_line(ls[0]) {
                None => None,
                Some(l) => match spec_description(l) {
                    None => None,
                    Some(d) => match rest {
                        Some(r) => Some(seq![d] + r),
                        None => None,
                    },
                },
            }
        } else {
            rest
        }
    }
}

/// The models of a sequence of extent descriptions.
pub open spec fn descriptions_view(v: Seq<ExtentDescription>) -> Seq<DescriptionModel> {
    v.map_values(|d: ExtentDescription| d@)
}

fn is_extent_line_range(v: &Vec<char>, lo: usize, hi: usize) -> (r: bool)
    requires
        lo <= hi <= v.len(),
    ensures
        r == is_extent_line(v@.subrange(lo as int, hi as int)),
{
    let a = skip_ws(v, lo, hi);
    match split_space(v, a, hi) {
        Some(sp) => access_mode_range(v, a, sp).is_some(),
        None => false,
    }
}

/// Reads the extent descriptions of a descriptor: every line whose first
/// word is an access mode is read as an extent description line; other lines
/// are passed over.
pub fn extract_extent_descriptions(descriptor: &str) -> (r: Result<
    Vec<ExtentDescription>,
    ParseExtentDescriptionError,
>)
    ensures
        match r {
            Ok(eds) => spec_extract(lines(descriptor@)) == Some(descriptions_view(eds@)),
            Err(_) => spec_extract(lines(descriptor@)) is None,
        },
{
    let v = str_chars(descriptor);
    let len = v.len();
    let mut eds: Vec<ExtentDescription> = Vec::new();
    let mut pos: usize = 0;
    assert(v@.subrange(0, len as int) =~= v@);
    while pos < len
        invariant
            v@ == descriptor@,
            len == v.len(),
            pos <= len,
            match spec_extract(lines(v@.subrange(pos as int, len as int))) {
                Some(rest) => spec_extract(lines(v@)) == Some(descriptions_view(eds@) + rest),
                None => spec_extract(lines(v@)) is None,
            },
        decreases len - pos,
    {
        let ghost sub = v@.subrange(pos as int, len as int);
        let (line_end, next) = match find_first(&v, pos, len, '\n') {
            Some(nl) => {
                proof {
                    assert(sub.take(nl - pos) =~= v@.subrange(pos as int, nl as int));
                    assert(sub.skip(nl - pos + 1) =~= v@.subrange(nl + 1, len as int));
                }
                if nl > pos && v[nl - 1] == '\r' {
                    assert(v@.subrange(pos as int, nl as int).drop_last() =~= v@.subrange(
                        pos as int,
                        nl - 1,
                    ));
                    (nl - 1, nl + 1)
                } else {
                    (nl, nl + 1)
                }
            },
            None => (len, len),
        };
        let ghost l = v@.subrange(pos as int, line_end as int);
        let ghost rest_lines = lines(v@.subrange(next as int, len as int));
        assert(lines(sub) == seq![l] + rest_lines) by {
            if next == len && line_end == len {
                assert(v@.subrange(next as int, len as int) =~= Seq::<char>::empty());
                assert(l =~= sub);
            }
        }
        assert((seq![l] + rest_lines).drop_first() =~= rest_lines);
        assert((seq![l] + rest_lines)[0] == l);
        if is_extent_line_range(&v, pos, line_end) {
            let edl = parse_line_range(descriptor, &v, pos, line_end)?;
            let ed = ExtentDescription::from_line(edl)?;
            let ghost old_eds = eds@;
            eds.push(ed);
            proof {
                assert(descriptions_view(eds@) =~= descriptions_view(old_eds) + seq![ed@]);
                match spec_extract(rest_lines) {
                    Some(r) => {
                        assert(descriptions_view(old_eds) + (seq![ed@] + r) =~= descriptions_view(
                            eds@,
                        ) + r);
                    },
                    None => {},
                }
            }
        }
        pos = next;
    }
    assert(v@.subrange(len as int, len as int) =~= Seq::<char>::empty());
    assert(descriptions_view(eds@) + Seq::<DescriptionModel>::empty() =~= descriptions_view(eds@));
    Ok(eds)
}

} // verus!
