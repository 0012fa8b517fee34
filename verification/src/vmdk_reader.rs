use crate::bytessource::BytesSource;
use crate::header::FileType;
use crate::descriptor::{extract_parent_fn_hint, spec_first_hint};
use crate::errors::{DescriptorError, OpenError, OpenErrorKind};
use crate::extent_description::{descriptions_view, DescriptionModel, ExtentDescription, InnerModel};
use crate::extents::{
    lemma_sectors_before_grows, lemma_spans_within, min, read_extents, sectors_before, source_content,
    source_reads_never_fail,
    held_spans_of, spec_extent_storage, Extent, ExtentModel,
};
use crate::spans::{
    insert_span, label_at, labelled_contains_at, labelled_wf, lemma_insert_span_labels,
    lemma_label_at, lemma_remove_keeps_separated, lemma_remove_span_exact, remove_span,
    spans_cover, spans_separated, spans_wf,
};
use crate::storage::{
    filled_from, grains_fit, lemma_read_len_bounds, readable, storage_byte, ExtentStorage,
    StorageModel,
};
use crate::text::lines;
use std::collections::BTreeMap;
use vstd::prelude::*;
use vstd::std_specs::iter::IteratorSpec;

verus! {

broadcast use vstd::std_specs::btree::group_btree_axioms;

/// Why a read from an image failed.
#[derive(Debug)]
pub enum ReadError {
    OffsetBeyondEnd(u64, u64),
    OffsetNotFound(u64),
    IoError(std::io::Error),
}

// ---------------------------------------------------------------------------
// Layering the extents of an image and of its parents
// ---------------------------------------------------------------------------

/// Sector `x` lies in one of the spans extent `e` holds data for.
pub open spec fn extent_covers(e: ExtentModel, x: int) -> bool {
    exists|p: (u64, u64)| #[trigger] held_spans_of(e).contains(p) && p.0 <= x < p.1
}

/// The models of a sequence of extents.
pub open spec fn extent_models<S: BytesSource>(v: Seq<Extent<S>>) -> Seq<ExtentModel> {
    v.map_values(|e: Extent<S>| e@)
}

/// Every labelled sector is labelled with an extent that holds data for it.
pub open spec fn labels_valid(spans: Map<u64, (u64, u64)>, extents: Seq<ExtentModel>) -> bool {
    forall|x: int|
        #[trigger] label_at(spans, x) is Some ==> {
            &&& label_at(spans, x).unwrap() < extents.len()
            &&& extent_covers(extents[label_at(spans, x).unwrap() as int], x)
        }
}

/// The label sector `x` gets when the extents `exts[0..k]`, numbered from
/// `base`, are laid under the labels of `spans`: a labelled sector keeps its
/// label; otherwise the first of these extents that holds it labels it.
pub open spec fn layered(
    spans: Map<u64, (u64, u64)>,
    base: int,
    exts: Seq<ExtentModel>,
    k: int,
    x: int,
) -> Option<u64>
    decreases k,
{
    if k <= 0 {
        label_at(spans, x)
    } else {
        let prev = layered(spans, base, exts, k - 1, x);
        if prev is Some {
            prev
        } else if extent_covers(exts[k - 1], x) {
            Some((base + k - 1) as u64)
        } else {
            None
        }
    }
}

/// Once a sector is labelled, laying more extents under it changes nothing.
pub proof fn lemma_layered_stable(
    spans: Map<u64, (u64, u64)>,
    base: int,
    exts: Seq<ExtentModel>,
    k: int,
    k2: int,
    x: int,
)
    requires
        0 <= k <= k2,
        layered(spans, base, exts, k, x) is Some,
    ensures
        layered(spans, base, exts, k2, x) == layered(spans, base, exts, k, x),
    decreases k2 - k,
{
    if k < k2 {
        lemma_layered_stable(spans, base, exts, k, k2 - 1, x);
    }
}

/// One more extent laid under the labels.
proof fn lemma_layered_step(
    spans0: Map<u64, (u64, u64)>,
    base: int,
    exts: Seq<ExtentModel>,
    j: int,
    before: Map<u64, (u64, u64)>,
    after: Map<u64, (u64, u64)>,
    total: int,
)
    requires
        0 <= j < exts.len(),
        0 <= base + j <= u64::MAX,
        forall|x: int|
            0 <= x < total ==> #[trigger] label_at(before, x) == layered(spans0, base, exts, j, x),
        forall|x: int|
            #[trigger] label_at(after, x) == if label_at(before, x) is Some {
                label_at(before, x)
            } else if extent_covers(exts[j], x) {
                Some((base + j) as u64)
            } else {
                None
            },
    ensures
        forall|x: int|
            0 <= x < total ==> #[trigger] label_at(after, x) == layered(spans0, base, exts, j + 1, x),
{
    assert forall|x: int| 0 <= x < total implies #[trigger] label_at(after, x) == layered(
        spans0,
        base,
        exts,
        j + 1,
        x,
    ) by {
        assert(label_at(before, x) == layered(spans0, base, exts, j, x));
    }
}

/// The contents of the files of an image's extents.
pub open spec fn contents_of<S: BytesSource>(srcs: Seq<Option<S>>) -> Seq<Option<Seq<u8>>> {
    srcs.map_values(|s: Option<S>| source_content(s))
}

/// The extents the descriptions of an image give with the contents of their
/// files, laid out one after the other from sector 0.
pub open spec fn image_extents(eds: Seq<DescriptionModel>, contents: Seq<Option<Seq<u8>>>) -> Seq<
    ExtentModel,
> {
    Seq::new(
        eds.len(),
        |i: int|
            ExtentModel {
                start_sector: sectors_before(eds, i) as u64,
                sectors: eds[i].sectors,
                storage: spec_extent_storage(eds[i].kind, contents[i]).unwrap(),
            },
    )
}

/// What a builder holds: the sector spans labelled with the extent that
/// provides them, the sectors no extent provides yet, the extents so far,
/// and the image size in bytes once the first image has been added.
pub struct BuilderModel {
    pub spans: Map<u64, (u64, u64)>,
    pub uncovered: Map<u64, u64>,
    pub extents: Seq<ExtentModel>,
    pub image_size: Option<u64>,
}

/// A builder is well formed when its span maps are, when labels name
/// extents that hold the labelled sectors, and, once the size is known,
/// when every sector of the image is either labelled or uncovered and
/// nothing outside the image is either.
pub open spec fn builder_wf(m: BuilderModel) -> bool {
    &&& labelled_wf(m.spans)
    &&& m.spans.dom().finite()
    &&& spans_wf(m.uncovered)
    &&& m.uncovered.dom().finite()
    &&& spans_separated(m.uncovered)
    &&& labels_valid(m.spans, m.extents)
    &&& forall|i: int|
        0 <= i < m.extents.len() ==> #[trigger] m.extents[i].start_sector + m.extents[i].sectors
            <= u64::MAX
    &&& match m.image_size {
        None => {
            &&& m.spans.dom().is_empty()
            &&& m.uncovered.dom().is_empty()
            &&& m.extents.len() == 0
        },
        Some(size) => {
            &&& size % 512 == 0
            &&& forall|x: int|
                #![trigger label_at(m.spans, x)]
                #![trigger spans_cover(m.uncovered, x)]
                0 <= x < size / 512 ==> label_at(m.spans, x) is Some || spans_cover(m.uncovered, x)
            &&& forall|x: int| #[trigger] spans_cover(m.uncovered, x) ==> 0 <= x < size / 512
            &&& forall|x: int| #[trigger] label_at(m.spans, x) is Some ==> 0 <= x < size / 512
        },
    }
}

/// Gathers the extents of an image and of its parents, child first: each
/// sector takes its data from the first extent that holds it.
#[derive(Debug)]
pub struct VmdkBuilder<S: BytesSource> {
    spans: BTreeMap<u64, (u64, u64)>,
    uncovered: BTreeMap<u64, u64>,
    extents: Vec<Extent<S>>,
    image_size: Option<u64>,
}

/// Every read of the files of `exts` succeeds.
pub open spec fn extents_read_ok<S: BytesSource>(exts: Seq<Extent<S>>) -> bool {
    forall|i: int| 0 <= i < exts.len() ==> (#[trigger] exts[i]).storage.reads_never_fail()
}

impl<S: BytesSource> VmdkBuilder<S> {
    /// Whether every read of the files of the extents gathered so far
    /// succeeds.
    pub closed spec fn reads_never_fail(&self) -> bool {
        extents_read_ok(self.extents@)
    }
}

impl<S: BytesSource> View for VmdkBuilder<S> {
    type V = BuilderModel;

    closed spec fn view(&self) -> BuilderModel {
        BuilderModel {
            spans: self.spans@,
            uncovered: self.uncovered@,
            extents: extent_models(self.extents@),
            image_size: self.image_size,
        }
    }
}

impl<S: BytesSource> VmdkBuilder<S> {
    #[verifier::type_invariant]
    closed spec fn inv(self) -> bool {
        builder_wf(self@)
    }

    /// A builder with no image yet.
    pub fn new() -> (b: VmdkBuilder<S>)
        ensures
            b@.spans.dom().is_empty(),
            b@.uncovered.dom().is_empty(),
            b@.extents.len() == 0,
            b@.image_size is None,
            b.reads_never_fail(),
    {
        let b = VmdkBuilder {
            spans: BTreeMap::new(),
            uncovered: BTreeMap::new(),
            extents: Vec::new(),
            image_size: None,
        };
        assert(extent_models(b.extents@) =~= Seq::<ExtentModel>::empty());
        b
    }

    /// Adds the extents of the next image of the chain, child first, given
    /// its extent descriptions and their files (`srcs[i]` is the file of
    /// `eds[i]`, `None` for an extent with no file). Every image of the
    /// chain must have the size of the first. Sectors already labelled keep
    /// their extent; the others take the first of this image's extents that
    /// holds them. An extent holds only its own sectors: a grain that
    /// reaches past the extent's end labels none of the sectors beyond it,
    /// which belong to the next extent. Returns whether every sector of the image now has an
    /// extent, in which case the remaining extents are not needed.
    #[verifier::rlimit(60)]
    pub fn add_image(self, eds: &[ExtentDescription], srcs: Vec<Option<S>>) -> (r: Result<
        (VmdkBuilder<S>, bool),
        OpenError,
    >)
        requires
            srcs.len() == eds.len(),
        ensures
            r matches Ok((b, done)) ==> {
                let dv = descriptions_view(eds@);
                let exts = image_extents(dv, contents_of(srcs@));
                let total = sectors_before(dv, eds.len() as int);
                let old_len = self@.extents.len();
                &&& total * 512 <= u64::MAX
                &&& b@.image_size == Some((total * 512) as u64)
                &&& self@.image_size matches Some(s) ==> s == total * 512
                &&& forall|x: int|
                    0 <= x < total ==> #[trigger] label_at(b@.spans, x) == layered(
                        self@.spans,
                        old_len as int,
                        exts,
                        exts.len() as int,
                        x,
                    )
                &&& old_len <= b@.extents.len() <= old_len + exts.len()
                &&& b@.extents.subrange(0, old_len as int) == self@.extents
                &&& forall|i: int|
                    old_len <= i < b@.extents.len() ==> #[trigger] b@.extents[i] == exts[i
                        - old_len]
                &&& !done ==> b@.extents.len() == old_len + exts.len()
                &&& done ==> forall|x: int|
                    0 <= x < total ==> #[trigger] label_at(b@.spans, x) is Some
                &&& builder_wf(b@)
            },
            sectors_before(descriptions_view(eds@), eds.len() as int) * 512 > u64::MAX ==> r is Err,
            (self@.image_size matches Some(s) && s != sectors_before(
                descriptions_view(eds@),
                eds.len() as int,
            ) * 512) ==> r is Err,
            match r {
                Err(OpenError { kind: OpenErrorKind::BadParentExtentDescriptorSize(a, b), .. }) => {
                    &&& self@.image_size == Some(a)
                    &&& b == sectors_before(descriptions_view(eds@), eds.len() as int) * 512
                    &&& a != b
                },
                _ => true,
            },
            (exists|i: int|
                0 <= i < eds.len() && (#[trigger] spec_extent_storage(
                    eds[i].kind@,
                    source_content(srcs[i]),
                )) is None) ==> r is Err,
            ({
                let total = sectors_before(descriptions_view(eds@), eds.len() as int);
                &&& total * 512 <= u64::MAX
                &&& self@.image_size matches Some(s) ==> s == total * 512
                &&& forall|i: int|
                    0 <= i < eds.len() ==> (#[trigger] spec_extent_storage(
                        eds[i].kind@,
                        source_content(srcs[i]),
                    )) is Some && source_reads_never_fail(srcs[i])
            }) ==> r is Ok,
            ({
                let total = sectors_before(descriptions_view(eds@), eds.len() as int);
                &&& total * 512 <= u64::MAX
                &&& (self@.image_size matches Some(s) && s != total * 512)
                &&& forall|i: int|
                    0 <= i < eds.len() ==> (#[trigger] spec_extent_storage(
                        eds[i].kind@,
                        source_content(srcs[i]),
                    )) is Some && source_reads_never_fail(srcs[i])
            }) ==> (r matches Err(e) && e.kind == OpenErrorKind::BadParentExtentDescriptorSize(
                self@.image_size.unwrap(),
                (sectors_before(descriptions_view(eds@), eds.len() as int) * 512) as u64,
            )),
            r matches Ok((b, _)) ==> (self.reads_never_fail() && (forall|i: int|
                0 <= i < eds.len() ==> #[trigger] source_reads_never_fail(srcs[i]))
                ==> b.reads_never_fail()),
    {
        proof {
            use_type_invariant(&self);
        }
        let ghost read_ok = self.reads_never_fail() && (forall|i: int|
            0 <= i < eds.len() ==> #[trigger] source_reads_never_fail(srcs[i]));
        let ghost m0 = self@;
        let ghost dv = descriptions_view(eds@);
        let ghost contents = contents_of(srcs@);
        let ghost exts_m = image_extents(dv, contents);
        let VmdkBuilder { mut spans, mut uncovered, mut extents, image_size } = self;
        let exts = read_extents(eds, srcs)?;
        let n = exts.len();
        assert forall|i: int| 0 <= i < n implies #[trigger] exts@[i]@ == exts_m[i] by {
            assert(dv[i] == eds@[i]@);
            assert(contents[i] == source_content(srcs@[i]));
        }
        let total: u64 = if n == 0 {
            0
        } else {
            exts[n - 1].start_sector + exts[n - 1].sectors
        };
        assert(total == sectors_before(dv, n as int));
        proof {
            assert forall|i: int| 0 <= i < n implies #[trigger] exts_m[i].start_sector
                + exts_m[i].sectors <= total by {
                lemma_sectors_before_grows(dv, 0, i);
                lemma_sectors_before_grows(dv, i + 1, n as int);
                assert(sectors_before(dv, i + 1) == sectors_before(dv, i) + dv[i].sectors);
            }
        }
        if total > u64::MAX / 512 {
            return Err(
                OpenError::from_kind(
                    OpenErrorKind::DescriptorError(DescriptorError::ParseExtentDescriptionError),
                ),
            );
        }
        let size = total * 512;
        match image_size {
            None => {
                if total > 0 {
                    uncovered.insert(0, total);
                }
                proof {
                    assert forall|x: int| #[trigger] label_at(spans@, x) is None by {}
                    assert forall|x: int| 0 <= x < total implies #[trigger] spans_cover(
                        uncovered@,
                        x,
                    ) by {
                        assert(uncovered@.contains_key(0));
                    }
                    assert forall|x: int| #[trigger] spans_cover(uncovered@, x) implies 0 <= x
                        < total by {
                        let b = choose|b: u64| #[trigger]
                            uncovered@.contains_key(b) && b <= x < uncovered@[b];
                        assert(b == 0);
                    }
                }
            },
            Some(s) => {
                if s != size {
                    return Err(
                        OpenError::from_kind(OpenErrorKind::BadParentExtentDescriptorSize(s, size)),
                    );
                }
            },
        }
        let ghost spans0 = spans@;
        let ghost base = extents@.len() as int;
        let ghost exts0 = exts@;
        let mut rest = exts;
        let mut j: usize = 0;
        while j < n
            invariant
                j <= n,
                rest@ == exts0.subrange(j as int, n as int),
                exts0.len() == n,
                read_ok == (self.reads_never_fail() && (forall|i: int|
                    0 <= i < eds.len() ==> #[trigger] source_reads_never_fail(srcs[i]))),
                read_ok ==> extents_read_ok(extents@),
                read_ok ==> forall|i: int| 0 <= i < n ==> (#[trigger] exts0[i]).storage.reads_never_fail(),
                n == eds.len(),
                dv == descriptions_view(eds@),
                contents == contents_of(srcs@),
                exts_m == image_extents(dv, contents),
                total == sectors_before(dv, n as int),
                m0 == self@,
                forall|i: int|
                    0 <= i < n ==> (#[trigger] spec_extent_storage(
                        eds[i].kind@,
                        source_content(srcs[i]),
                    )) is Some,
                m0.image_size matches Some(s) ==> s == size,
                n == exts_m.len(),
                rest@.len() == n - j,
                forall|i: int| 0 <= i < rest@.len() ==> #[trigger] rest@[i]@ == exts_m[j + i],
                forall|i: int|
                    0 <= i < n ==> (#[trigger] exts_m[i]).start_sector + exts_m[i].sectors <= total,
                size == total * 512,
                spans0 == m0.spans,
                base == m0.extents.len(),
                builder_wf(
                    BuilderModel {
                        spans: spans@,
                        uncovered: uncovered@,
                        extents: extent_models(extents@),
                        image_size: Some(size),
                    },
                ),
                extents@.len() == base + j,
                extent_models(extents@).subrange(0, base) == m0.extents,
                forall|i: int|
                    base <= i < extents@.len() ==> #[trigger] extent_models(extents@)[i]
                        == exts_m[i - base],
                forall|x: int|
                    0 <= x < total ==> #[trigger] label_at(spans@, x) == layered(
                        spans0,
                        base,
                        exts_m,
                        j as int,
                        x,
                    ),
            decreases n - j,
        {
            let ex = rest.remove(0);
            assert(ex == exts0[j as int]);
            assert(rest@ =~= exts0.subrange(j + 1, n as int));
            assert(ex@ == exts_m[j as int]);
            assert(ex.start_sector + ex.sectors <= total);
            let sp = ex.held_spans();
            let ghost models = extent_models(extents@);
            let ghost spans_before = spans@;
            add_extent_spans(
                &mut spans,
                &mut uncovered,
                &sp,
                extents.len() as u64,
                Ghost(ex@),
                Ghost(models),
                size,
            );
            let ghost ex_ok = ex.storage.reads_never_fail();
            extents.push(ex);
            assert(extent_models(extents@) =~= models.push(ex@));
            proof {
                if read_ok {
                    assert(ex_ok);
                    assert forall|i: int| 0 <= i < extents@.len() implies (
                    #[trigger] extents@[i]).storage.reads_never_fail() by {}
                }
            }
            proof {
                lemma_layered_step(spans0, base, exts_m, j as int, spans_before, spans@, total as int);
            }
            assert(extent_models(extents@).subrange(0, base) =~= m0.extents);
            j = j + 1;
            if uncovered.is_empty() {
                // every sector has an extent
                proof {
                    assert forall|x: int| 0 <= x < total implies #[trigger] label_at(spans@, x)
                        is Some && label_at(spans@, x) == layered(
                        spans0,
                        base,
                        exts_m,
                        n as int,
                        x,
                    ) by {
                        if !(label_at(spans@, x) is Some) {
                            assert(spans_cover(uncovered@, x));
                            let b = choose|b: u64| #[trigger]
                                uncovered@.contains_key(b) && b <= x < uncovered@[b];
                            assert(uncovered@.dom().contains(b));
                        }
                        lemma_layered_stable(spans0, base, exts_m, j as int, n as int, x);
                    }
                }
                let b = VmdkBuilder { spans, uncovered, extents, image_size: Some(size) };
                return Ok((b, true));
            }
        }
        let b = VmdkBuilder { spans, uncovered, extents, image_size: Some(size) };
        Ok((b, false))
    }
}

/// Sector `x` lies in one of the first `n` spans of `sp`.
spec fn in_some_span(sp: Seq<(u64, u64)>, n: int, x: int) -> bool {
    exists|j: int| 0 <= j < n && #[trigger] sp[j].0 <= x < sp[j].1
}

/// Processes the spans of one extent, the next after `extents`: each
/// non-empty span is labelled with the extent's number where no label is
/// yet, and cut out of the uncovered sectors.
fn add_extent_spans(
    spans: &mut BTreeMap<u64, (u64, u64)>,
    uncovered: &mut BTreeMap<u64, u64>,
    sp: &Vec<(u64, u64)>,
    v: u64,
    ex: Ghost<ExtentModel>,
    extents: Ghost<Seq<ExtentModel>>,
    size: u64,
)
    requires
        builder_wf(
            BuilderModel {
                spans: old(spans)@,
                uncovered: old(uncovered)@,
                extents: extents@,
                image_size: Some(size),
            },
        ),
        v == extents@.len(),
        forall|q: (u64, u64)| sp@.contains(q) <==> held_spans_of(ex@).contains(q),
        ex@.start_sector + ex@.sectors <= size / 512,
    ensures
        builder_wf(
            BuilderModel {
                spans: final(spans)@,
                uncovered: final(uncovered)@,
                extents: extents@.push(ex@),
                image_size: Some(size),
            },
        ),
        forall|x: int|
            #[trigger] label_at(final(spans)@, x) == if label_at(old(spans)@, x) is Some {
                label_at(old(spans)@, x)
            } else if extent_covers(ex@, x) {
                Some(v)
            } else {
                None
            },
{
    let ghost spans0 = spans@;
    let sec = size / 512;
    let mut k: usize = 0;
    while k < sp.len()
        invariant
            k <= sp.len(),
            labelled_wf(spans@),
            spans@.dom().finite(),
            spans_wf(uncovered@),
            uncovered@.dom().finite(),
            spans_separated(uncovered@),
            v == extents@.len(),
            labelled_wf(spans0),
            labels_valid(spans0, extents@),
            forall|q: (u64, u64)| sp@.contains(q) <==> held_spans_of(ex@).contains(q),
            ex@.start_sector + ex@.sectors <= sec,
            forall|x: int|
                #![trigger label_at(spans@, x)]
                #![trigger spans_cover(uncovered@, x)]
                0 <= x < sec ==> label_at(spans@, x) is Some || spans_cover(uncovered@, x),
            forall|x: int| #[trigger] spans_cover(uncovered@, x) ==> 0 <= x < sec,
            forall|x: int| #[trigger] label_at(spans@, x) is Some ==> 0 <= x < sec,
            forall|x: int|
                #[trigger] label_at(spans@, x) == if label_at(spans0, x) is Some {
                    label_at(spans0, x)
                } else if in_some_span(sp@, k as int, x) {
                    Some(v)
                } else {
                    None
                },
        decreases sp.len() - k,
    {
        let (b, e) = sp[k];
        assert(sp@.contains(sp@[k as int]));
        proof {
            lemma_spans_within(ex@, (b, e));
        }
        let ghost old_spans = spans@;
        let ghost old_unc = uncovered@;
        if b < e {
            insert_span(b, e, v, spans);
            remove_span(b, e, uncovered);
            proof {
                lemma_insert_span_labels(old_spans, b, e, v);
                lemma_remove_span_exact(old_unc, b, e);
                lemma_remove_keeps_separated(old_unc, b, e);
            }
        }
        assert forall|x: int|
            #[trigger] label_at(spans@, x) == if label_at(spans0, x) is Some {
                label_at(spans0, x)
            } else if in_some_span(sp@, k + 1, x) {
                Some(v)
            } else {
                None
            } by {
            if in_some_span(sp@, k + 1, x) {
                let j = choose|j: int| 0 <= j < k + 1 && #[trigger] sp@[j].0 <= x < sp@[j].1;
                if j < k {
                    assert(in_some_span(sp@, k as int, x));
                }
            }
        }
        k = k + 1;
    }
    assert forall|x: int| #[trigger] in_some_span(sp@, sp@.len() as int, x) <==> extent_covers(ex@, x) by {
        if in_some_span(sp@, sp@.len() as int, x) {
            let j = choose|j: int| 0 <= j < sp@.len() && #[trigger] sp@[j].0 <= x < sp@[j].1;
            assert(sp@.contains(sp@[j]));
        }
        if extent_covers(ex@, x) {
            let p = choose|p: (u64, u64)| #[trigger] held_spans_of(ex@).contains(p) && p.0 <= x < p.1;
            assert(sp@.contains(p));
            let j = sp@.index_of(p);
            assert(sp@[j] == p);
            assert(in_some_span(sp@, sp@.len() as int, x));
        }
    }
    let ghost exts2 = extents@.push(ex@);
    assert forall|x: int| #[trigger] label_at(spans@, x) is Some implies {
        &&& label_at(spans@, x).unwrap() < exts2.len()
        &&& extent_covers(exts2[label_at(spans@, x).unwrap() as int], x)
    } by {
        if label_at(spans0, x) is Some {
            assert(exts2[label_at(spans0, x).unwrap() as int] == extents@[label_at(
                spans0,
                x,
            ).unwrap() as int]);
        }
    }
    assert forall|i: int| 0 <= i < exts2.len() implies #[trigger] exts2[i].start_sector
        + exts2[i].sectors <= u64::MAX by {
        if i < extents@.len() {
            assert(exts2[i] == extents@[i]);
        }
    }
}

// ---------------------------------------------------------------------------
// Finishing: zero-filling and byte spans
// ---------------------------------------------------------------------------

/// Gives every uncovered span a zero extent of its own.
fn fill_uncovered<S: BytesSource>(
    spans: &mut BTreeMap<u64, (u64, u64)>,
    uncovered: &BTreeMap<u64, u64>,
    extents: &mut Vec<Extent<S>>,
    sec: u64,
)
    requires
        labelled_wf(old(spans)@),
        spans_wf(uncovered@),
        labels_valid(old(spans)@, extent_models(old(extents)@)),
        forall|i: int|
            0 <= i < old(extents)@.len() ==> #[trigger] extent_models(old(extents)@)[i].start_sector
                + extent_models(old(extents)@)[i].sectors <= u64::MAX,
        forall|x: int|
            #![trigger label_at(old(spans)@, x)]
            #![trigger spans_cover(uncovered@, x)]
            0 <= x < sec ==> label_at(old(spans)@, x) is Some || spans_cover(uncovered@, x),
        forall|x: int| #[trigger] spans_cover(uncovered@, x) ==> 0 <= x < sec,
        forall|x: int| #[trigger] label_at(old(spans)@, x) is Some ==> 0 <= x < sec,
    ensures
        labelled_wf(final(spans)@),
        old(extents)@.len() <= final(extents)@.len(),
        extent_models(final(extents)@).subrange(0, old(extents)@.len() as int) == extent_models(
            old(extents)@,
        ),
        forall|i: int|
            old(extents)@.len() <= i < final(extents)@.len() ==> (#[trigger] extent_models(
                final(extents)@,
            )[i]).storage is Zero,
        forall|i: int|
            0 <= i < final(extents)@.len() ==> #[trigger] extent_models(final(extents)@)[i].start_sector
                + extent_models(final(extents)@)[i].sectors <= u64::MAX,
        labels_valid(final(spans)@, extent_models(final(extents)@)),
        forall|x: int|
            #[trigger] label_at(old(spans)@, x) is Some ==> label_at(final(spans)@, x) == label_at(
                old(spans)@,
                x,
            ),
        forall|x: int|
            #[trigger] label_at(final(spans)@, x) is Some && label_at(old(spans)@, x) is None
                ==> label_at(final(spans)@, x).unwrap() >= old(extents)@.len(),
        forall|x: int| 0 <= x < sec ==> #[trigger] label_at(final(spans)@, x) is Some,
        forall|x: int| #[trigger] label_at(final(spans)@, x) is Some ==> 0 <= x < sec,
        extents_read_ok(old(extents)@) ==> extents_read_ok(final(extents)@),
{
    let ghost spans0 = spans@;
    let ghost models0 = extent_models(extents@);
    let ghost n0 = extents@.len();
    for (lb, ub) in it: uncovered.iter()
        invariant
            spans_wf(uncovered@),
            labelled_wf(spans0),
            labelled_wf(spans@),
            forall|i: int|
                0 <= i < it.seq().len() ==> uncovered@.contains_key(*it.seq()[i].0)
                    && uncovered@[*it.seq()[i].0] == *it.seq()[i].1,
            forall|k: u64|
                #[trigger] uncovered@.contains_key(k) ==> it.seq().contains((&k, &uncovered@[k])),
            n0 <= extents@.len(),
            extents_read_ok(old(extents)@) ==> extents_read_ok(extents@),
            extent_models(extents@).subrange(0, n0 as int) == models0,
            forall|i: int|
                n0 <= i < extents@.len() ==> (#[trigger] extent_models(extents@)[i]).storage is Zero,
            forall|i: int|
                0 <= i < extents@.len() ==> #[trigger] extent_models(extents@)[i].start_sector
                    + extent_models(extents@)[i].sectors <= u64::MAX,
            labels_valid(spans@, extent_models(extents@)),
            forall|x: int|
                #[trigger] label_at(spans0, x) is Some ==> label_at(spans@, x) == label_at(
                    spans0,
                    x,
                ),
            forall|x: int|
                #[trigger] label_at(spans@, x) is Some && label_at(spans0, x) is None
                    ==> label_at(spans@, x).unwrap() >= n0,
            forall|x: int|
                #![trigger label_at(spans0, x)]
                #![trigger spans_cover(uncovered@, x)]
                0 <= x < sec ==> label_at(spans0, x) is Some || spans_cover(uncovered@, x),
            forall|x: int| #[trigger] spans_cover(uncovered@, x) ==> 0 <= x < sec,
            forall|x: int| #[trigger] label_at(spans0, x) is Some ==> 0 <= x < sec,
            forall|x: int| #[trigger] label_at(spans@, x) is Some ==> 0 <= x < sec,
            forall|i: int, x: int|
                #![trigger it.seq()[i], label_at(spans@, x)]
                0 <= i < it.index() && *it.seq()[i].0 <= x < *it.seq()[i].1 ==> label_at(
                    spans@,
                    x,
                ) is Some,
            it.index() == it.seq().len() ==> forall|x: int|
                0 <= x < sec ==> #[trigger] label_at(spans@, x) is Some,
    {
        let ghost idx = it.index();
        let ghost before = spans@;
        let ghost models = extent_models(extents@);
        let lb = *lb;
        let ub = *ub;
        assert(uncovered@.contains_key(lb) && uncovered@[lb] == ub);
        assert(spans_cover(uncovered@, ub - 1));
        let v = extents.len() as u64;
        insert_span(lb, ub, v, spans);
        proof {
            lemma_insert_span_labels(before, lb, ub, v);
        }
        let ghost exts_before = extents@;
        extents.push(Extent { start_sector: lb, sectors: ub - lb, storage: ExtentStorage::Zero });
        proof {
            if extents_read_ok(exts_before) {
                assert forall|i: int| 0 <= i < extents@.len() implies (
                #[trigger] extents@[i]).storage.reads_never_fail() by {
                    if i < exts_before.len() {
                        assert(extents@[i] == exts_before[i]);
                    }
                }
            }
        }
        let ghost zm = ExtentModel { start_sector: lb, sectors: (ub - lb) as u64, storage: StorageModel::Zero };
        assert(extent_models(extents@) =~= models.push(zm));
        assert(extent_models(extents@).subrange(0, n0 as int) =~= models0) by {
            assert(models.subrange(0, n0 as int) == models0);
        }
        assert(held_spans_of(zm).contains((lb, ub)));
        assert forall|x: int| #[trigger] label_at(spans@, x) is Some implies {
            &&& label_at(spans@, x).unwrap() < extent_models(extents@).len()
            &&& extent_covers(extent_models(extents@)[label_at(spans@, x).unwrap() as int], x)
        } by {
            if label_at(before, x) is Some {
                assert(extent_models(extents@)[label_at(before, x).unwrap() as int]
                    == models[label_at(before, x).unwrap() as int]);
            } else {
                assert(extent_covers(zm, x));
            }
        }
        assert forall|i: int, x: int|
            #![trigger it.seq()[i], label_at(spans@, x)]
            0 <= i < idx + 1 && *it.seq()[i].0 <= x < *it.seq()[i].1 implies label_at(
                spans@,
                x,
            ) is Some by {
            if i < idx {
                assert(label_at(before, x) is Some);
            }
        }
        assert forall|x: int|
            idx + 1 == it.seq().len() && 0 <= x < sec implies #[trigger] label_at(spans@, x)
            is Some by {
            if label_at(spans0, x) is None {
                assert(spans_cover(uncovered@, x));
                let b = choose|b: u64| #[trigger]
                    uncovered@.contains_key(b) && b <= x < uncovered@[b];
                assert(it.seq().contains((&b, &uncovered@[b])));
                let i = choose|i: int| 0 <= i < it.seq().len() && it.seq()[i] == (&b, &uncovered@[b]);
                assert(*it.seq()[i].0 <= x < *it.seq()[i].1);
                if i < idx {
                    assert(label_at(before, x) is Some);
                }
            }
        }
    }
}

/// Byte span `i` of `spans` holds position `p`.
pub open spec fn span_holds(spans: Seq<(u64, (u64, usize))>, i: int, p: int) -> bool {
    0 <= i < spans.len() && spans[i].0 <= p < spans[i].1.0
}

/// Some byte span of `spans` holds position `p`.
pub open spec fn held(spans: Seq<(u64, (u64, usize))>, p: int) -> bool {
    exists|i: int| #[trigger] span_holds(spans, i, p)
}

/// The byte span of sector span `(b, (e, v))`.
spec fn byte_span(b: u64, ev: (u64, u64)) -> (u64, (u64, usize)) {
    ((b * 512) as u64, ((ev.0 * 512) as u64, ev.1 as usize))
}

/// The keys a map's entries come in are increasing.
proof fn lemma_increasing_keys(s: Seq<(&u64, &(u64, u64))>)
    requires
        vstd::std_specs::btree::increasing_seq(s.map_values(|kv: (&u64, &(u64, u64))| *kv.0)),
    ensures
        forall|i: int, j: int| #![trigger s[i], s[j]] 0 <= i < j < s.len() ==> *s[i].0 < *s[j].0,
{
    broadcast use vstd::laws_cmp::group_laws_cmp;

    let t = s.map_values(|kv: (&u64, &(u64, u64))| *kv.0);
    assert forall|i: int, j: int| #![trigger s[i], s[j]] 0 <= i < j < s.len() implies *s[i].0
        < *s[j].0 by {
        assert(t[i] == *s[i].0 && t[j] == *s[j].0);
        assert(vstd::std_specs::cmp::OrdSpec::cmp_spec(&t[i], &t[j]) is Less);
    }
}

/// Lists the labelled sector spans in order as byte spans, each with the
/// number of its extent.
fn byte_spans(
    spans: &BTreeMap<u64, (u64, u64)>,
    models: Ghost<Seq<ExtentModel>>,
    n_extents: usize,
    sec: u64,
) -> (out: Vec<(u64, (u64, usize))>)
    requires
        labelled_wf(spans@),
        labels_valid(spans@, models@),
        models@.len() == n_extents,
        forall|i: int|
            0 <= i < models@.len() ==> #[trigger] models@[i].start_sector + models@[i].sectors
                <= u64::MAX,
        forall|x: int| #[trigger] label_at(spans@, x) is Some ==> 0 <= x < sec,
        forall|x: int| 0 <= x < sec ==> #[trigger] label_at(spans@, x) is Some,
        sec * 512 <= u64::MAX,
    ensures
        forall|i: int, j: int|
            #![trigger out@[i], out@[j]]
            0 <= i < j < out@.len() ==> out@[i].1.0 <= out@[j].0,
        forall|i: int|
            0 <= i < out@.len() ==> {
                &&& (#[trigger] out@[i]).0 < out@[i].1.0
                &&& out@[i].1.1 < models@.len()
                &&& models@[out@[i].1.1 as int].start_sector * 512 <= out@[i].0
            },
        forall|p: int| 0 <= p < sec * 512 ==> #[trigger] held(out@, p),
        forall|i: int, p: int|
            #[trigger] span_holds(out@, i, p) ==> label_at(spans@, p / 512) == Some(
                out@[i].1.1 as u64,
            ),
{
    let mut out: Vec<(u64, (u64, usize))> = Vec::new();
    proof {
        if sec > 0 {
            assert(label_at(spans@, 0) is Some);
            let k = choose|k: u64| labelled_contains_at(spans@, 0, k);
            assert(spans@.contains_key(k));
        }
    }
    let entries = spans.iter();
    proof {
        lemma_increasing_keys(entries.remaining());
    }
    for (b, v) in it: entries
        invariant
            labelled_wf(spans@),
            labels_valid(spans@, models@),
            models@.len() == n_extents,
            forall|i: int|
                0 <= i < models@.len() ==> #[trigger] models@[i].start_sector + models@[i].sectors
                    <= u64::MAX,
            forall|x: int| #[trigger] label_at(spans@, x) is Some ==> 0 <= x < sec,
            forall|x: int| 0 <= x < sec ==> #[trigger] label_at(spans@, x) is Some,
            sec * 512 <= u64::MAX,
            forall|i: int|
                0 <= i < it.seq().len() ==> spans@.contains_key(*it.seq()[i].0) && spans@[*it.seq()[i].0]
                    == *it.seq()[i].1,
            forall|k: u64| #[trigger] spans@.contains_key(k) ==> it.seq().contains((&k, &spans@[k])),
            forall|i: int, j: int|
                #![trigger it.seq()[i], it.seq()[j]]
                0 <= i < j < it.seq().len() ==> *it.seq()[i].0 < *it.seq()[j].0,
            out@.len() == it.index(),
            forall|i: int|
                0 <= i < out@.len() ==> #[trigger] out@[i] == byte_span(*it.seq()[i].0, *it.seq()[i].1),
            forall|i: int, j: int|
                #![trigger out@[i], out@[j]]
                0 <= i < j < out@.len() ==> out@[i].1.0 <= out@[j].0,
            forall|i: int|
                0 <= i < out@.len() ==> {
                    &&& (#[trigger] out@[i]).0 < out@[i].1.0
                    &&& out@[i].1.1 < models@.len()
                    &&& models@[out@[i].1.1 as int].start_sector * 512 <= out@[i].0
                },
            forall|i: int, p: int|
                #[trigger] span_holds(out@, i, p) ==> label_at(spans@, p / 512) == Some(
                    out@[i].1.1 as u64,
                ),
            it.index() == it.seq().len() ==> forall|p: int|
                0 <= p < sec * 512 ==> #[trigger] held(out@, p),
    {
        let ghost idx = it.index();
        let b = *b;
        let (e, w) = *v;
        assert(spans@.contains_key(b) && spans@[b] == (e, w));
        proof {
            lemma_label_at(spans@, b as int, b);
            lemma_label_at(spans@, e - 1, b);
            let x = b as int;
            let ext = models@[w as int];
            assert(extent_covers(ext, x));
            let q = choose|q: (u64, u64)| #[trigger] held_spans_of(ext).contains(q) && q.0 <= x < q.1;
            lemma_spans_within(ext, q);
        }
        let entry = (b * 512, (e * 512, w as usize));
        let ghost before = out@;
        out.push(entry);
        assert(out@[idx] == entry);
        assert forall|i: int, j: int|
            #![trigger out@[i], out@[j]]
            0 <= i < j < out@.len() implies out@[i].1.0 <= out@[j].0 by {
            if j == idx {
                assert(before[i] == out@[i]);
                assert(*it.seq()[i].0 < b);
                assert(spans@[*it.seq()[i].0].0 <= b);
            } else {
                assert(before[i] == out@[i] && before[j] == out@[j]);
            }
        }
        assert forall|i: int, p: int| #[trigger] span_holds(out@, i, p) implies label_at(
            spans@,
            p / 512,
        ) == Some(out@[i].1.1 as u64) by {
            if i == idx {
                lemma_label_at(spans@, p / 512, b);
            } else {
                assert(span_holds(before, i, p));
            }
        }
        assert forall|p: int|
            idx + 1 == it.seq().len() && 0 <= p < sec * 512 implies #[trigger] held(out@, p) by {
            let x = p / 512;
            assert(label_at(spans@, x) is Some);
            let k = choose|k: u64| labelled_contains_at(spans@, x, k);
            assert(it.seq().contains((&k, &spans@[k])));
            let i = choose|i: int| 0 <= i < it.seq().len() && it.seq()[i] == (&k, &spans@[k]);
            assert(span_holds(out@, i, p));
        }
    }
    out
}

// ---------------------------------------------------------------------------
// Reading an image
// ---------------------------------------------------------------------------

/// What a reader holds: the image's path and size in bytes, its byte spans
/// in order as (start, (end, extent number)), and its extents.
pub struct ReaderModel {
    pub image_path: Seq<char>,
    pub image_size: u64,
    pub spans: Seq<(u64, (u64, usize))>,
    pub extents: Seq<ExtentModel>,
}

/// A reader is well formed when its spans are non-empty, in order and
/// disjoint, name an extent that starts no later than they do, and
/// together hold every position of the image.
pub open spec fn reader_wf(m: ReaderModel) -> bool {
    &&& forall|i: int, j: int|
        #![trigger m.spans[i], m.spans[j]]
        0 <= i < j < m.spans.len() ==> m.spans[i].1.0 <= m.spans[j].0
    &&& forall|i: int|
        0 <= i < m.spans.len() ==> {
            &&& (#[trigger] m.spans[i]).0 < m.spans[i].1.0
            &&& m.spans[i].1.1 < m.extents.len()
            &&& m.extents[m.spans[i].1.1 as int].start_sector * 512 <= m.spans[i].0
        }
    &&& forall|p: int| 0 <= p < m.image_size ==> #[trigger] held(m.spans, p)
}

/// The byte at position `p` of the image: what the extent of the span that
/// holds `p` stores there, if it can be read.
pub open spec fn image_byte(m: ReaderModel, p: int) -> Option<u8> {
    if held(m.spans, p) {
        let i = choose|i: int| span_holds(m.spans, i, p);
        let e = m.extents[m.spans[i].1.1 as int];
        storage_byte(e.storage, p - e.start_sector * 512)
    } else {
        None
    }
}

/// A read at `offset` of image `m` turned buffer `old` into `new` and
/// returned `n`: as many bytes as the buffer takes, up to the image end, each
/// the image's byte; the rest of the buffer as it was.
pub open spec fn read_fills(m: ReaderModel, offset: int, old: Seq<u8>, new: Seq<u8>, n: int) -> bool {
    &&& new.len() == old.len()
    &&& n == min(old.len() as int, m.image_size - offset)
    &&& forall|k: int| 0 <= k < n ==> image_byte(m, offset + k) == Some(#[trigger] new[k])
    &&& forall|k: int| n <= k < new.len() ==> #[trigger] new[k] == old[k]
}

/// Law of reads: what a read gives depends on neither the buffer's size
/// nor on the reads before it. Reading `[offset, offset + k)` and then what
/// follows gives the same bytes as one read of the whole, within the image.
pub proof fn lemma_split_read(
    m: ReaderModel,
    offset: int,
    a0: Seq<u8>,
    a1: Seq<u8>,
    n1: int,
    b0: Seq<u8>,
    b1: Seq<u8>,
    n2: int,
    c0: Seq<u8>,
    c1: Seq<u8>,
    n: int,
)
    requires
        0 <= offset,
        offset + c0.len() <= m.image_size,
        c0.len() == a0.len() + b0.len(),
        read_fills(m, offset, a0, a1, n1),
        read_fills(m, offset + a0.len(), b0, b1, n2),
        read_fills(m, offset, c0, c1, n),
    ensures
        n == n1 + n2,
        a1 + b1 == c1,
{
    let k = a0.len() as int;
    assert forall|i: int| 0 <= i < c1.len() implies #[trigger] c1[i] == (a1 + b1)[i] by {
        if i < k {
            assert(image_byte(m, offset + i) == Some(a1[i]));
            assert(image_byte(m, offset + i) == Some(c1[i]));
        } else {
            assert(image_byte(m, offset + k + (i - k)) == Some(b1[i - k]));
            assert(image_byte(m, offset + i) == Some(c1[i]));
        }
    }
    assert(a1 + b1 =~= c1);
}

/// The byte the layers of a builder give position `p`: what the extent
/// labelled at `p`'s sector stores there, or zero where no extent holds it.
pub open spec fn layered_byte(m: BuilderModel, p: int) -> Option<u8> {
    match label_at(m.spans, p / 512) {
        Some(i) => storage_byte(
            m.extents[i as int].storage,
            p - m.extents[i as int].start_sector * 512,
        ),
        None => Some(0),
    }
}

/// At most one span of a well-formed reader holds a position.
proof fn lemma_span_unique(m: ReaderModel, i: int, j: int, p: int)
    requires
        reader_wf(m),
        span_holds(m.spans, i, p),
        span_holds(m.spans, j, p),
    ensures
        i == j,
{
    if i < j {
        assert(m.spans[i].1.0 <= m.spans[j].0);
    } else if j < i {
        assert(m.spans[j].1.0 <= m.spans[i].0);
    }
}

/// Reads a virtual disk made of layered extents.
#[derive(Debug)]
pub struct VmdkReader<S: BytesSource> {
    image_path: String,
    image_size: u64,
    spans: Vec<(u64, (u64, usize))>,
    extents: Vec<Extent<S>>,
}

impl<S: BytesSource> VmdkReader<S> {
    /// Whether every read of bytes the image's extents hold succeeds (see
    /// `ExtentStorage::reads_never_fail`).
    pub closed spec fn reads_never_fail(&self) -> bool {
        extents_read_ok(self.extents@)
    }
}

impl<S: BytesSource> View for VmdkReader<S> {
    type V = ReaderModel;

    closed spec fn view(&self) -> ReaderModel {
        ReaderModel {
            image_path: self.image_path@,
            image_size: self.image_size,
            spans: self.spans@,
            extents: extent_models(self.extents@),
        }
    }
}

impl<S: BytesSource> VmdkBuilder<S> {
    /// The reader of the layered image: sectors that no extent holds read
    /// as zeros.
    pub fn finish(self, image_path: String) -> (r: VmdkReader<S>)
        ensures
            r@.image_path == image_path@,
            r@.image_size == (match self@.image_size {
                Some(s) => s,
                None => 0,
            }),
            forall|p: int|
                0 <= p < r@.image_size ==> #[trigger] image_byte(r@, p) == layered_byte(self@, p),
            self.reads_never_fail() ==> r.reads_never_fail(),
            (forall|i: int|
                0 <= i < self@.extents.len() ==> grains_fit((#[trigger] self@.extents[i]).storage))
                ==> forall|i: int|
                0 <= i < r@.extents.len() ==> grains_fit((#[trigger] r@.extents[i]).storage),
    {
        proof {
            use_type_invariant(&self);
        }
        let ghost m0 = self@;
        let VmdkBuilder { mut spans, uncovered, mut extents, image_size } = self;
        let size = match image_size {
            Some(s) => s,
            None => 0,
        };
        let sec = size / 512;
        proof {
            if image_size is None {
                assert forall|x: int| #[trigger] label_at(spans@, x) is None by {}
                assert forall|x: int| !#[trigger] spans_cover(uncovered@, x) by {}
            }
        }
        let ghost n0 = extents@.len();
        let ghost spans0 = spans@;
        fill_uncovered(&mut spans, &uncovered, &mut extents, sec);
        let ghost models = extent_models(extents@);
        let out = byte_spans(&spans, Ghost(models), extents.len(), sec);
        let r = VmdkReader { image_path, image_size: size, spans: out, extents };
        assert forall|p: int| 0 <= p < size implies #[trigger] image_byte(r@, p) == layered_byte(
            m0,
            p,
        ) by {
            assert(held(out@, p));
            let i = choose|i: int| span_holds(out@, i, p);
            let x = p / 512;
            assert(label_at(spans@, x) == Some(out@[i].1.1 as u64));
            if label_at(spans0, x) is Some {
                let j = label_at(spans0, x).unwrap();
                assert(j < n0);
                assert(models.subrange(0, n0 as int)[j as int] == models[j as int]);
            }
        }
        proof {
            if forall|i: int| 0 <= i < m0.extents.len() ==> grains_fit((#[trigger] m0.extents[i]).storage) {
                assert forall|i: int| 0 <= i < models.len() implies grains_fit(
                    (#[trigger] models[i]).storage,
                ) by {
                    if i < n0 {
                        assert(models.subrange(0, n0 as int)[i] == models[i]);
                    }
                }
            }
        }
        r
    }
}

/// Copies `src[0..n]` into `buf[at..at + n]`.
fn copy_at(buf: &mut [u8], at: usize, src: &Vec<u8>, n: usize)
    requires
        at + n <= old(buf)@.len(),
        n <= src@.len(),
    ensures
        final(buf)@.len() == old(buf)@.len(),
        forall|k: int| 0 <= k < n ==> #[trigger] final(buf)@[at + k] == src@[k],
        forall|k: int|
            0 <= k < final(buf)@.len() && !(at <= k < at + n) ==> #[trigger] final(buf)@[k]
                == old(buf)@[k],
{
    let total = buf.len();
    let mut i: usize = 0;
    while i < n
        invariant
            total == buf@.len(),
            at + n <= buf@.len(),
            n <= src@.len(),
            buf@.len() == old(buf)@.len(),
            0 <= i <= n,
            forall|k: int| 0 <= k < i ==> #[trigger] buf@[at + k] == src@[k],
            forall|k: int|
                0 <= k < buf@.len() && !(at <= k < at + i) ==> #[trigger] buf@[k] == old(buf)@[k],
        decreases n - i,
    {
        buf[at + i] = src[i];
        i = i + 1;
    }
}

impl<S: BytesSource> VmdkReader<S> {
    #[verifier::type_invariant]
    closed spec fn inv(self) -> bool {
        reader_wf(self@)
    }

    /// The path the image was opened from.
    pub fn image_path(&self) -> (p: &str)
        ensures
            p@ == self@.image_path,
    {
        self.image_path.as_str()
    }

    /// The size of the image in bytes.
    pub fn image_size(&self) -> (s: u64)
        ensures
            s == self@.image_size,
    {
        self.image_size
    }

    /// The span that holds position `pos` (a binary search).
    fn find_span(&self, pos: u64) -> (i: usize)
        requires
            pos < self@.image_size,
        ensures
            span_holds(self@.spans, i as int, pos as int),
    {
        proof {
            use_type_invariant(self);
        }
        let ghost m = self@;
        let mut lo: usize = 0;
        let mut hi: usize = self.spans.len();
        while lo < hi
            invariant
                m == self@,
                reader_wf(m),
                m.spans == self.spans@,
                lo <= hi <= self.spans@.len(),
                forall|j: int| 0 <= j < lo ==> (#[trigger] m.spans[j]).0 <= pos,
                forall|j: int| hi <= j < m.spans.len() ==> (#[trigger] m.spans[j]).0 > pos,
            decreases hi - lo,
        {
            let mid = lo + (hi - lo) / 2;
            if self.spans[mid].0 <= pos {
                assert forall|j: int| 0 <= j <= mid implies (#[trigger] m.spans[j]).0 <= pos by {
                    if j < mid {
                        assert(m.spans[j].1.0 <= m.spans[mid as int].0);
                    }
                }
                lo = mid + 1;
            } else {
                assert forall|j: int| mid <= j < m.spans.len() implies (#[trigger] m.spans[j]).0
                    > pos by {
                    if j > mid {
                        assert(m.spans[mid as int].1.0 <= m.spans[j].0);
                    }
                }
                hi = mid;
            }
        }
        assert(held(m.spans, pos as int));
        let ghost c = choose|c: int| span_holds(m.spans, c, pos as int);
        assert(m.spans[c].0 <= pos);
        assert(c < lo);
        let i = lo - 1;
        proof {
            if c < i {
                assert(m.spans[c].1.0 <= m.spans[i as int].0);
            }
        }
        i
    }

    /// Reads into `buf` the bytes of the image from position `offset` on,
    /// stopping at the end of the image; returns how many were read.
    /// Starting past the end of the image is an error.
    pub fn read_at_offset(&mut self, offset: u64, buf: &mut [u8]) -> (r: Result<usize, ReadError>)
        ensures
            final(self)@ == old(self)@,
            final(buf)@.len() == old(buf)@.len(),
            offset > old(self)@.image_size <==> r matches Err(ReadError::OffsetBeyondEnd(_, _)),
            r matches Err(ReadError::OffsetBeyondEnd(o, s)) ==> o == offset && s == old(
                self,
            )@.image_size,
            r matches Err(ReadError::OffsetBeyondEnd(_, _)) ==> final(buf)@ == old(buf)@,
            offset == old(self)@.image_size ==> r == Ok::<usize, ReadError>(0),
            r matches Ok(n) ==> read_fills(old(self)@, offset as int, old(buf)@, final(buf)@, n as int),
            offset <= old(self)@.image_size && old(self).reads_never_fail() && (forall|i: int|
                0 <= i < old(self)@.extents.len() ==> grains_fit(
                    (#[trigger] old(self)@.extents[i]).storage,
                )) && (forall|k: int|
                0 <= k < min(old(buf)@.len() as int, old(self)@.image_size - offset) ==> (
                #[trigger] image_byte(old(self)@, offset + k)) is Some) ==> r is Ok,
    {
        proof {
            use_type_invariant(&*self);
        }
        let ghost m = self@;
        let ghost ok = self.reads_never_fail() && (forall|i: int|
            0 <= i < m.extents.len() ==> grains_fit((#[trigger] m.extents[i]).storage)) && (forall|k: int|
            0 <= k < min(buf@.len() as int, m.image_size - offset) ==> (#[trigger] image_byte(
                m,
                offset + k,
            )) is Some);
        let size = self.image_size;
        // don't start reading past the end
        if offset > size {
            return Err(ReadError::OffsetBeyondEnd(offset, size));
        }
        // limit the read to the image end
        let len: usize = if buf.len() as u64 > size - offset {
            (size - offset) as usize
        } else {
            buf.len()
        };
        let end = offset + len as u64;
        let mut pos = offset;
        while pos < end
            invariant
                m == self@,
                reader_wf(m),
                offset <= pos <= end,
                end == offset + len,
                len <= buf@.len(),
                end <= m.image_size,
                buf@.len() == old(buf)@.len(),
                forall|k: int|
                    0 <= k < pos - offset ==> image_byte(m, offset + k) == Some(#[trigger] buf@[k]),
                forall|k: int| pos - offset <= k < buf@.len() ==> #[trigger] buf@[k] == old(buf)@[k],
                ok ==> self.reads_never_fail(),
                ok ==> forall|i: int|
                    0 <= i < m.extents.len() ==> grains_fit((#[trigger] m.extents[i]).storage),
                (offset <= old(self)@.image_size && old(self).reads_never_fail() && (forall|i: int|
                    0 <= i < old(self)@.extents.len() ==> grains_fit(
                        (#[trigger] old(self)@.extents[i]).storage,
                    )) && (forall|k: int|
                    0 <= k < min(old(buf)@.len() as int, old(self)@.image_size - offset) ==> (
                    #[trigger] image_byte(old(self)@, offset + k)) is Some)) ==> ok,
                ok ==> forall|k: int|
                    0 <= k < len ==> (#[trigger] image_byte(m, offset + k)) is Some,
            decreases end - pos,
        {
            let i = self.find_span(pos);
            let (sb, (se, idx)) = self.spans[i];
            assert(m.spans[i as int] == (sb, (se, idx)));
            let ex = &self.extents[idx];
            assert(m.extents[idx as int] == ex@);
            let start = ex.start_sector * 512;
            let want: usize = if se - pos < end - pos {
                (se - pos) as usize
            } else {
                (end - pos) as usize
            };
            let mut tmp = vec![0u8; want];
            let ghost tmp0 = tmp@;
            let off = pos - start;
            proof {
                if ok {
                    // every byte the read takes is held by this span's extent
                    assert(ex.storage.reads_never_fail());
                    assert(grains_fit(m.extents[idx as int].storage));
                    assert forall|k: int| 0 <= k < want implies (#[trigger] storage_byte(
                        ex.storage@,
                        off + k,
                    )) is Some by {
                        let q = pos + k;
                        assert(image_byte(m, offset + (q - offset)) is Some);
                        assert(span_holds(m.spans, i as int, q));
                        let c = choose|c: int| span_holds(m.spans, c, q);
                        lemma_span_unique(m, c, i as int, q);
                    }
                    lemma_read_len_bounds(ex.storage@, off as int, want as int);
                    assert(readable(ex.storage@, off as int, want as int));
                }
            }
            let n = match ex.storage.read(off, tmp.as_mut_slice()) {
                Ok(n) => n,
                Err(e) => return Err(e),
            };
            proof {
                lemma_read_len_bounds(ex.storage@, off as int, want as int);
            }
            assert(filled_from(ex.storage@, off as int, n as int, tmp0, tmp@));
            let ghost before = buf@;
            copy_at(buf, (pos - offset) as usize, &tmp, n);
            assert forall|k: int| 0 <= k < pos + n - offset implies image_byte(m, offset + k) == Some(
                #[trigger] buf@[k],
            ) by {
                if k < pos - offset {
                    assert(buf@[k] == before[k]);
                } else {
                    let q = offset + k;
                    let d = k - (pos - offset);
                    assert(buf@[(pos - offset) + d] == tmp@[d]);
                    assert(span_holds(m.spans, i as int, q));
                    let c = choose|c: int| span_holds(m.spans, c, q);
                    lemma_span_unique(m, c, i as int, q);
                    assert(storage_byte(ex.storage@, off + d) == Some(tmp@[d]));
                }
            }
            pos = pos + n as u64;
        }
        Ok(len)
    }
}

// ---------------------------------------------------------------------------
// Where the files of an image are
// ---------------------------------------------------------------------------

/// The URL that `rel` names relative to the URL `base`, as text: what
/// `url::Url::parse` of `base` followed by `Url::join` with `rel` gives;
/// `None` when either fails.
pub uninterp spec fn joined_url(base: Seq<char>, rel: Seq<char>) -> Option<Seq<char>>;

/// Resolves `rel` against the URL `base` (`url::Url::parse`, then
/// `Url::join`, then `Url::as_str`); the result is `joined_url(base, rel)`.
#[verifier::external_body]
fn join_url(base: &str, rel: &str) -> (r: Option<String>)
    ensures
        match r {
            Some(u) => joined_url(base@, rel@) == Some(u@),
            None => joined_url(base@, rel@) is None,
        },
{
    match url::Url::parse(base) {
        Ok(b) => match b.join(rel) {
            Ok(u) => Some(u.as_str().to_owned()),
            Err(_) => None,
        },
        Err(_) => None,
    }
}

/// The file name of an extent description, if its kind has a file.
pub open spec fn desc_filename(d: InnerModel) -> Option<Seq<char>> {
    match d {
        InnerModel::Sparse(f) => Some(f),
        InnerModel::Flat(f, _) => Some(f),
        InnerModel::Zero => None,
        InnerModel::Vmfs(f) => Some(f),
        InnerModel::VmfsSparse(f) => Some(f),
        InnerModel::VmfsRdm(f) => Some(f),
        InnerModel::VmfsRaw(f) => Some(f),
        InnerModel::SeSparse(f) => Some(f),
    }
}

/// The extent's file name does not resolve against the image URL.
pub open spec fn bad_extent_path(image_url: Seq<char>, d: InnerModel) -> bool {
    desc_filename(d) matches Some(f) && joined_url(image_url, f) is None
}

/// Whether an image is a lone sparse file: a file with a sparse signature
/// whose descriptor lists a single extent. Such a file is its own extent,
/// whatever file name its descriptor gives, when that name cannot be
/// opened.
pub fn is_lone_sparse_file(signature: Option<FileType>, eds: &[ExtentDescription]) -> (r: bool)
    ensures
        r == (signature is Some && eds@.len() == 1),
{
    signature.is_some() && eds.len() == 1
}

/// The URLs of the files of an image's extents, each file name resolved
/// against the image's URL (`None` for an extent with no file). A file
/// name that does not resolve is a bad path, the first such one reported.
pub fn extent_urls(image_url: &str, eds: &[ExtentDescription]) -> (r: Result<
    Vec<Option<String>>,
    OpenErrorKind,
>)
    ensures
        match r {
            Ok(urls) => {
                &&& urls.len() == eds.len()
                &&& forall|i: int|
                    0 <= i < eds.len() ==> match desc_filename(#[trigger] eds[i].kind@) {
                        None => urls[i] is None,
                        Some(f) => urls[i] matches Some(u) && joined_url(image_url@, f) == Some(u@),
                    }
            },
            Err(e) => exists|i: int|
                {
                    &&& 0 <= i < eds.len()
                    &&& bad_extent_path(image_url@, #[trigger] eds[i].kind@)
                    &&& forall|j: int|
                        0 <= j < i ==> !bad_extent_path(image_url@, #[trigger] eds[j].kind@)
                    &&& e matches OpenErrorKind::BadPath(b)
                    &&& b@ == desc_filename(eds[i].kind@).unwrap()
                },
        },
        (exists|i: int| 0 <= i < eds.len() && bad_extent_path(image_url@, #[trigger] eds[i].kind@))
            ==> r is Err,
{
    let mut urls: Vec<Option<String>> = Vec::new();
    let mut i: usize = 0;
    while i < eds.len()
        invariant
            i <= eds.len(),
            urls.len() == i,
            forall|k: int| 0 <= k < i ==> !bad_extent_path(image_url@, #[trigger] eds[k].kind@),
            forall|k: int|
                0 <= k < i ==> match desc_filename(#[trigger] eds[k].kind@) {
                    None => urls[k] is None,
                    Some(f) => urls[k] matches Some(u) && joined_url(image_url@, f) == Some(u@),
                },
        decreases eds.len() - i,
    {
        let ed = &eds[i];
        let u = match ed.filename() {
            None => None,
            Some(f) => match join_url(image_url, f) {
                Some(u) => Some(u),
                None => {
                    assert(bad_extent_path(image_url@, eds[i as int].kind@));
                    return Err(OpenErrorKind::BadPath(f.to_owned()));
                },
            },
        };
        urls.push(u);
        i = i + 1;
    }
    Ok(urls)
}

/// The URL of an image's parent: the parent file name its descriptor
/// gives (see `extract_parent_fn_hint`), resolved against the image's URL;
/// `None` for an image with no parent. A name that does not resolve is a
/// bad path.
pub fn parent_url(current_url: &str, descriptor: &str) -> (r: Result<Option<String>, OpenErrorKind>)
    ensures
        match spec_first_hint(lines(descriptor@)) {
            None => r matches Ok(p) && p is None,
            Some(h) => match joined_url(current_url@, h) {
                Some(u) => r matches Ok(p) && p matches Some(pu) && pu@ == u,
                None => r matches Err(e) && e matches OpenErrorKind::BadPath(b) && b@ == h,
            },
        },
{
    match extract_parent_fn_hint(descriptor) {
        None => Ok(None),
        Some(h) => match join_url(current_url, h.as_str()) {
            Some(u) => Ok(Some(u)),
            None => Err(OpenErrorKind::BadPath(h)),
        },
    }
}

} // verus!
