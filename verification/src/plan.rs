//! Planning the batched launches that decompress the pages of a file.
//!
//! A row group is decompressed by one launch. Its plan says which byte ranges to stage on the
//! device, where in them each compressed page lies, and where in one output buffer each
//! decompressed page goes.

use crate::backend::AlignmentRequirements;
use crate::codec::GpuCodec;
use crate::collect::{
    collect, first_found, law_collecting_stops_at_the_first_error, law_first_found_is_first,
    lemma_collect_error, lemma_collect_next, lemma_collect_ok,
    lemma_first_found,
};
use crate::nvcomp::NvcompError;
use crate::scan::{
    chunks_view, in_order, row_groups_view, ChunkPages, ColumnChunkPages, CompressedPage,
};
use vstd::arithmetic::power::pow;
use vstd::arithmetic::power2::{is_pow2, is_pow2_equiv, is_pow2_exists, lemma_pow2, pow2};
use vstd::prelude::*;

verus! {

/// A page to decompress, addressed relative to its column chunk's device buffer.
#[derive(Clone, Copy, Debug, PartialEq, Eq, Structural)]
pub struct PlannedPage {
    /// Which of the row group's column chunks holds the page.
    pub chunk: usize,
    /// Where in the chunk the compressed body starts.
    pub offset_in_chunk: usize,
    /// Length of the compressed body in bytes.
    pub compressed_len: usize,
    /// Length of the body once decompressed.
    pub uncompressed_len: usize,
    /// Where in the output buffer the decompressed body starts.
    pub output_offset: usize,
}

/// The byte range of a column chunk to stage on the device.
#[derive(Clone, Copy, Debug, PartialEq, Eq, Structural)]
pub struct PlannedChunk {
    /// Offset of the column chunk within the file.
    pub offset: u64,
    /// Length of the column chunk in bytes.
    pub len: usize,
}

/// Everything needed to issue one batched launch over a row group's pages.
#[derive(Debug, PartialEq, Eq)]
pub struct RowGroupPlan {
    /// The column chunks to stage.
    pub chunks: Vec<PlannedChunk>,
    /// The pages to decompress, chunk by chunk and in file order.
    pub pages: Vec<PlannedPage>,
    /// Length of the output buffer in bytes.
    pub output_len: usize,
    /// Length of the longest decompressed page.
    pub max_uncompressed: usize,
}

/// The plan of a row group, as a value.
#[verifier::ext_equal]
pub struct GroupPlan {
    /// The column chunks to stage.
    pub chunks: Seq<PlannedChunk>,
    /// The pages to decompress.
    pub pages: Seq<PlannedPage>,
    /// Length of the output buffer in bytes.
    pub output_len: usize,
    /// Length of the longest decompressed page.
    pub max_uncompressed: usize,
}

impl View for RowGroupPlan {
    type V = GroupPlan;

    open spec fn view(&self) -> GroupPlan {
        GroupPlan {
            chunks: self.chunks@,
            pages: self.pages@,
            output_len: self.output_len,
            max_uncompressed: self.max_uncompressed,
        }
    }
}

/// The work for one file, row group by row group.
#[derive(Debug, PartialEq, Eq)]
pub struct DecompressPlan {
    /// One plan per row group.
    pub row_groups: Vec<RowGroupPlan>,
}

impl View for DecompressPlan {
    type V = Seq<GroupPlan>;

    open spec fn view(&self) -> Seq<GroupPlan> {
        plans_view(self.row_groups@)
    }
}

/// The plans of all row groups, as values.
pub open spec fn plans_view(plans: Seq<RowGroupPlan>) -> Seq<GroupPlan> {
    Seq::new(plans.len(), |i: int| plans[i]@)
}

/// Why a file cannot be decompressed by batched launches.
#[derive(Clone, Copy, Debug, PartialEq, Eq, Structural)]
pub enum PlanError {
    /// nvcomp did not say which alignments it needs.
    AlignmentQuery(NvcompError),
    /// nvcomp reported an output alignment that is no power of two.
    OutputAlignment(usize),
    /// A page starts before its column chunk does.
    PagePrecedesChunk {
        /// Where in the file the page starts.
        page: usize,
        /// Where in the file the chunk starts.
        chunk: u64,
    },
    /// A page does not meet the input alignment.
    Misaligned {
        /// Where in the file the page starts.
        page: usize,
        /// Where in its column chunk the page starts.
        offset_in_chunk: usize,
        /// The input alignment.
        alignment: usize,
        /// The codec that asks for it.
        codec: GpuCodec,
    },
    /// The file has no compressed pages.
    NoPages,
}

/// A page together with the column chunk that it was found in.
pub struct LocatedPage {
    /// The index of the chunk in its row group.
    pub chunk: nat,
    /// Offset of the chunk within the file.
    pub chunk_offset: u64,
    /// The page.
    pub page: CompressedPage,
}

/// The pages of the chunk at `index`.
pub open spec fn located_in(chunk: ChunkPages, index: nat) -> Seq<LocatedPage> {
    Seq::new(
        chunk.pages.len(),
        |i: int| LocatedPage { chunk: index, chunk_offset: chunk.offset, page: chunk.pages[i] },
    )
}

/// The pages of all chunks of a row group, in order.
pub open spec fn located(chunks: Seq<ChunkPages>) -> Seq<LocatedPage>
    decreases chunks.len(),
{
    if chunks.len() == 0 {
        Seq::empty()
    } else {
        located(chunks.drop_last()) + located_in(chunks.last(), (chunks.len() - 1) as nat)
    }
}

/// Whether `n` is a multiple of `factor`. Only zero is a multiple of zero.
pub open spec fn multiple_of(n: int, factor: int) -> bool {
    if factor == 0 {
        n == 0
    } else {
        n % factor == 0
    }
}

/// The least multiple of `factor` that is no less than `n`.
pub open spec fn next_multiple(n: nat, factor: nat) -> nat {
    if n % factor == 0 {
        n
    } else {
        (n + factor - n % factor) as nat
    }
}

impl LocatedPage {
    /// Why the page cannot be decompressed in place, if it cannot.
    ///
    /// Device allocations are aligned far beyond what nvcomp asks for, so a page meets the
    /// input alignment exactly when its offset in the chunk does.
    pub open spec fn error(self, codec: GpuCodec, alignment: AlignmentRequirements) -> Option<
        PlanError,
    > {
        if self.page.offset < self.chunk_offset {
            Some(
                PlanError::PagePrecedesChunk { page: self.page.offset, chunk: self.chunk_offset },
            )
        } else if !multiple_of(self.page.offset - self.chunk_offset, alignment.input as int) {
            Some(
                PlanError::Misaligned {
                    page: self.page.offset,
                    offset_in_chunk: (self.page.offset - self.chunk_offset) as usize,
                    alignment: alignment.input,
                    codec,
                },
            )
        } else {
            None
        }
    }

    /// The page as planned, with its output at `output_offset`.
    pub open spec fn planned(self, output_offset: nat) -> PlannedPage {
        PlannedPage {
            chunk: self.chunk as usize,
            offset_in_chunk: (self.page.offset - self.chunk_offset) as usize,
            compressed_len: self.page.compressed_len,
            uncompressed_len: self.page.uncompressed_len,
            output_offset: output_offset as usize,
        }
    }
}

/// The error of the first page that cannot be decompressed in place, if there is one.
pub open spec fn first_error(
    pages: Seq<LocatedPage>,
    codec: GpuCodec,
    alignment: AlignmentRequirements,
) -> Option<PlanError> {
    first_found(pages, |index: int, page: LocatedPage| page.error(codec, alignment))
}

/// Where the output of `pages` ends, each page at the next multiple of `alignment` after the
/// one before.
pub open spec fn output_end(pages: Seq<LocatedPage>, alignment: nat) -> nat
    decreases pages.len(),
{
    if pages.len() == 0 {
        0
    } else {
        next_multiple(output_end(pages.drop_last(), alignment), alignment)
            + pages.last().page.uncompressed_len as nat
    }
}

/// The pages as planned, each at the next multiple of `alignment` after the one before.
pub open spec fn planned_pages(pages: Seq<LocatedPage>, alignment: nat) -> Seq<PlannedPage> {
    Seq::new(
        pages.len(),
        |i: int|
            pages[i].planned(next_multiple(output_end(pages.take(i), alignment), alignment)),
    )
}

/// Length of the longest decompressed page, or zero where there is none.
pub open spec fn longest(pages: Seq<LocatedPage>) -> usize
    decreases pages.len(),
{
    if pages.len() == 0 {
        0
    } else {
        let before = longest(pages.drop_last());
        let len = pages.last().page.uncompressed_len;
        if len > before {
            len
        } else {
            before
        }
    }
}

/// The byte ranges of all chunks of a row group.
pub open spec fn planned_chunks(chunks: Seq<ChunkPages>) -> Seq<PlannedChunk> {
    Seq::new(
        chunks.len(),
        |i: int| PlannedChunk { offset: chunks[i].offset, len: chunks[i].len },
    )
}

/// The plan of a row group, or the error of its first page that cannot be planned.
pub open spec fn group_plan(
    chunks: Seq<ChunkPages>,
    codec: GpuCodec,
    alignment: AlignmentRequirements,
) -> Result<GroupPlan, PlanError> {
    let pages = located(chunks);
    match first_error(pages, codec, alignment) {
        Some(error) => Err(error),
        None => Ok(
            GroupPlan {
                chunks: planned_chunks(chunks),
                pages: planned_pages(pages, alignment.output as nat),
                output_len: output_end(pages, alignment.output as nat) as usize,
                max_uncompressed: longest(pages),
            },
        ),
    }
}

/// Whether the output of all pages in front of the first error can be addressed.
pub open spec fn pages_fit(
    pages: Seq<LocatedPage>,
    codec: GpuCodec,
    alignment: AlignmentRequirements,
) -> bool {
    forall|i: int|
        0 < i <= pages.len() && first_error(#[trigger] pages.take(i), codec, alignment) is None
            ==> alignment.output > 0 && output_end(pages.take(i), alignment.output as nat)
            <= usize::MAX
}

/// Whether the output of a row group can be addressed.
pub open spec fn group_fits(
    chunks: Seq<ChunkPages>,
    codec: GpuCodec,
    alignment: AlignmentRequirements,
) -> bool {
    pages_fit(located(chunks), codec, alignment)
}

/// The plans of all row groups, or the error of the first that cannot be planned.
pub open spec fn group_plans(
    row_groups: Seq<Seq<ChunkPages>>,
    codec: GpuCodec,
    alignment: AlignmentRequirements,
) -> Result<Seq<GroupPlan>, PlanError> {
    collect(row_groups, |chunks: Seq<ChunkPages>| group_plan(chunks, codec, alignment))
}

/// Whether the output of each row group can be addressed, up to the first that cannot be
/// planned.
pub open spec fn groups_fit(
    row_groups: Seq<Seq<ChunkPages>>,
    codec: GpuCodec,
    alignment: AlignmentRequirements,
) -> bool {
    forall|i: int|
        0 <= i < row_groups.len() && group_plans(row_groups.take(i), codec, alignment) is Ok
            ==> group_fits(#[trigger] row_groups[i], codec, alignment)
}

/// Whether there is anything to decompress.
pub open spec fn any_pages(plans: Seq<GroupPlan>) -> bool {
    exists|i: int| 0 <= i < plans.len() && (#[trigger] plans[i]).pages.len() > 0
}

/// The plan of a file.
pub open spec fn file_plan(
    row_groups: Seq<Seq<ChunkPages>>,
    codec: GpuCodec,
    alignment: Result<AlignmentRequirements, NvcompError>,
) -> Result<Seq<GroupPlan>, PlanError> {
    match alignment {
        Err(error) => Err(PlanError::AlignmentQuery(error)),
        Ok(alignment) => if !is_pow2(alignment.output as int) {
            Err(PlanError::OutputAlignment(alignment.output))
        } else {
            match group_plans(row_groups, codec, alignment) {
                Err(error) => Err(error),
                Ok(plans) => if any_pages(plans) {
                    Ok(plans)
                } else {
                    Err(PlanError::NoPages)
                },
            }
        },
    }
}

/// Whether the output of each row group can be addressed, as far as the file is planned.
pub open spec fn file_fits(
    row_groups: Seq<Seq<ChunkPages>>,
    codec: GpuCodec,
    alignment: Result<AlignmentRequirements, NvcompError>,
) -> bool {
    match alignment {
        Err(_) => true,
        Ok(alignment) => is_pow2(alignment.output as int) ==> groups_fit(
            row_groups,
            codec,
            alignment,
        ),
    }
}

/// Decides whether `n` is a power of two.
pub fn is_power_of_two(n: usize) -> (answer: bool)
    ensures
        answer == is_pow2(n as int),
{
    reveal(is_pow2);
    if n == 0 {
        return false;
    }
    let mut rest: usize = n;
    while rest % 2 == 0
        invariant
            rest > 0,
            is_pow2(rest as int) == is_pow2(n as int),
        decreases rest,
    {
        reveal(is_pow2);
        rest = rest / 2;
    }
    rest == 1
}

/// The least multiple of `factor` that is no less than `n`, or `None` where it exceeds the
/// address space or `factor` is zero.
pub fn checked_next_multiple(n: usize, factor: usize) -> (next: Option<usize>)
    ensures
        next is Some <==> factor > 0 && next_multiple(n as nat, factor as nat) <= usize::MAX,
        next matches Some(value) ==> value == next_multiple(n as nat, factor as nat),
        next matches Some(value) ==> value % factor == 0 && n <= value < n + factor,
        next is None <==> factor == 0 || (n % factor != 0 && n + factor - n % factor
            > usize::MAX),
{
    proof {
        if factor > 0 {
            lemma_next_multiple(n as nat, factor as nat);
        }
    }
    if factor == 0 {
        return None;
    }
    let over: usize = n % factor;
    if over == 0 {
        Some(n)
    } else {
        n.checked_add(factor - over)
    }
}

/// The pages of the first chunks of a row group come first among its pages.
proof fn lemma_located_prefix(chunks: Seq<ChunkPages>, k: int)
    requires
        0 <= k <= chunks.len(),
    ensures
        located(chunks.take(k)).len() <= located(chunks).len(),
        located(chunks.take(k)) == located(chunks).take(located(chunks.take(k)).len() as int),
    decreases chunks.len(),
{
    if k == chunks.len() {
        assert(chunks.take(k) =~= chunks);
        assert(located(chunks).take(located(chunks).len() as int) =~= located(chunks));
    } else {
        lemma_located_prefix(chunks.drop_last(), k);
        assert(chunks.drop_last().take(k) =~= chunks.take(k));
        assert(located(chunks.take(k)) =~= located(chunks).take(
            located(chunks.take(k)).len() as int,
        ));
    }
}

/// The page at `j` of chunk `k` follows the pages of the chunks before, and the pages of that
/// chunk in front of it.
proof fn lemma_located_at(chunks: Seq<ChunkPages>, k: int, j: int)
    requires
        0 <= k < chunks.len(),
        0 <= j < chunks[k].pages.len(),
    ensures
        ({
            let at = located(chunks.take(k)).len() + j;
            &&& at < located(chunks).len()
            &&& located(chunks)[at] == LocatedPage {
                chunk: k as nat,
                chunk_offset: chunks[k].offset,
                page: chunks[k].pages[j],
            }
        }),
{
    lemma_located_prefix(chunks, k + 1);
    assert(chunks.take(k + 1).drop_last() =~= chunks.take(k));
    let through = located(chunks.take(k + 1));
    let at = located(chunks.take(k)).len() + j;
    assert(through[at] == located_in(chunks[k], k as nat)[j]);
    assert(located(chunks)[at] == located(chunks).take(through.len() as int)[at]);
}

/// One more page.
proof fn lemma_planned_next(pages: Seq<LocatedPage>, i: int, alignment: nat)
    requires
        0 <= i < pages.len(),
    ensures
        planned_pages(pages.take(i + 1), alignment) == planned_pages(
            pages.take(i),
            alignment,
        ).push(pages[i].planned(next_multiple(output_end(pages.take(i), alignment), alignment))),
        output_end(pages.take(i + 1), alignment) == next_multiple(
            output_end(pages.take(i), alignment),
            alignment,
        ) + pages[i].page.uncompressed_len as nat,
        pages.take(i + 1).drop_last() == pages.take(i),
{
    assert(pages.take(i + 1).drop_last() =~= pages.take(i));
    let longer = planned_pages(pages.take(i + 1), alignment);
    let shorter = planned_pages(pages.take(i), alignment);
    assert forall|j: int| 0 <= j < i implies longer[j] == shorter[j] by {
        assert(pages.take(i + 1).take(j) =~= pages.take(i).take(j));
    }
    assert(pages.take(i + 1).take(i) =~= pages.take(i));
    assert(longer =~= shorter.push(
        pages[i].planned(next_multiple(output_end(pages.take(i), alignment), alignment)),
    ));
}

/// Once a page is in error nothing more is asked of the output.
proof fn lemma_fits_up_to_error(
    pages: Seq<LocatedPage>,
    i: int,
    codec: GpuCodec,
    alignment: AlignmentRequirements,
)
    requires
        0 <= i <= pages.len(),
        first_error(pages.take(i), codec, alignment) is Some || i == pages.len(),
        forall|k: int|
            0 < k <= i && first_error(#[trigger] pages.take(k), codec, alignment) is None
                ==> alignment.output > 0 && output_end(pages.take(k), alignment.output as nat)
                <= usize::MAX,
    ensures
        pages_fit(pages, codec, alignment),
{
    assert forall|k: int|
        0 < k <= pages.len() && first_error(
            #[trigger] pages.take(k),
            codec,
            alignment,
        ) is None implies alignment.output > 0 && output_end(
        pages.take(k),
        alignment.output as nat,
    ) <= usize::MAX by {
        if k > i {
            assert(pages.take(k).take(i) =~= pages.take(i));
            lemma_first_found(
                pages.take(k),
                |index: int, page: LocatedPage| page.error(codec, alignment),
                i,
            );
        }
    }
}

impl RowGroupPlan {
    /// Plans the launch over a row group as [`RowGroupPlan::build`] does, or returns `None`
    /// where the output of its pages cannot be addressed.
    pub fn checked_build(
        chunks: &[ColumnChunkPages],
        codec: GpuCodec,
        alignment: AlignmentRequirements,
    ) -> (built: Option<Result<Self, PlanError>>)
        ensures
            built is Some <==> group_fits(chunks_view(chunks@), codec, alignment),
            match (built, group_plan(chunks_view(chunks@), codec, alignment)) {
                (Some(Ok(plan)), Ok(expected)) => plan@ == expected,
                (Some(Err(error)), Err(expected)) => error == expected,
                (None, _) => true,
                _ => false,
            },
            built matches Some(Ok(plan)) ==> {
                let expected = group_plan(chunks_view(chunks@), codec, alignment)->Ok_0;
                &&& plan.chunks@ == expected.chunks
                &&& plan.pages@ == expected.pages
                &&& plan.output_len == expected.output_len
                &&& plan.max_uncompressed == expected.max_uncompressed
                &&& plan.chunks@.len() == chunks@.len()
                &&& forall|k: int|
                    0 <= k < chunks@.len() ==> (#[trigger] plan.chunks@[k]).offset
                        == chunks@[k].offset && plan.chunks@[k].len == chunks@[k].len
            },
    {
        let ghost views = chunks_view(chunks@);
        let ghost all = located(views);
        let ghost factor = alignment.output as nat;
        let ghost mut done: int = 0;
        let mut planned: Vec<PlannedChunk> = Vec::with_capacity(chunks.len());
        let mut pages: Vec<PlannedPage> = Vec::new();
        let mut output_len: usize = 0;
        let mut max_uncompressed: usize = 0;
        proof {
            assert(views.take(0) =~= Seq::empty());
            assert(all.take(0) =~= Seq::empty());
            assert(planned_pages(all.take(0), factor) =~= Seq::empty());
        }
        let mut index: usize = 0;
        while index < chunks.len()
            invariant
                views == chunks_view(chunks@),
                all == located(views),
                factor == alignment.output as nat,
                index <= chunks@.len(),
                done == located(views.take(index as int)).len(),
                0 <= done <= all.len(),
                planned@ == planned_chunks(views).take(index as int),
                first_error(all.take(done), codec, alignment) is None,
                pages@ == planned_pages(all.take(done), factor),
                output_len == output_end(all.take(done), factor),
                max_uncompressed == longest(all.take(done)),
                forall|k: int|
                    0 < k <= done ==> alignment.output > 0 && output_end(
                        #[trigger] all.take(k),
                        factor,
                    ) <= usize::MAX,
            decreases chunks@.len() - index,
        {
            let chunk = &chunks[index];
            planned.push(PlannedChunk { offset: chunk.offset, len: chunk.len });
            assert(planned@ =~= planned_chunks(views).take(index + 1));
            let ghost first: int = done;
            let mut i: usize = 0;
            while i < chunk.pages.len()
                invariant
                    views == chunks_view(chunks@),
                    all == located(views),
                    factor == alignment.output as nat,
                    index < chunks@.len(),
                    *chunk == chunks@[index as int],
                    i <= chunk.pages@.len(),
                    first == located(views.take(index as int)).len(),
                    done == first + i,
                    0 <= done <= all.len(),
                    first_error(all.take(done), codec, alignment) is None,
                    pages@ == planned_pages(all.take(done), factor),
                    output_len == output_end(all.take(done), factor),
                    max_uncompressed == longest(all.take(done)),
                    forall|k: int|
                        0 < k <= done ==> alignment.output > 0 && output_end(
                            #[trigger] all.take(k),
                            factor,
                        ) <= usize::MAX,
                decreases chunk.pages@.len() - i,
            {
                let page: CompressedPage = chunk.pages[i];
                proof {
                    lemma_located_at(views, index as int, i as int);
                    lemma_planned_next(all, done, factor);
                    assert(all[done].page == page && all[done].chunk_offset == chunk.offset);
                    if all[done].error(codec, alignment) is Some {
                        lemma_first_found(
                            all,
                            |index: int, page: LocatedPage| page.error(codec, alignment),
                            done + 1,
                        );
                        lemma_fits_up_to_error(all, done + 1, codec, alignment);
                    }
                }
                if (page.offset as u64) < chunk.offset {
                    return Some(
                        Err(
                            PlanError::PagePrecedesChunk {
                                page: page.offset,
                                chunk: chunk.offset,
                            },
                        ),
                    );
                }
                let offset_in_chunk: usize = (page.offset as u64 - chunk.offset) as usize;
                if !offset_in_chunk.is_multiple_of(alignment.input) {
                    return Some(
                        Err(
                            PlanError::Misaligned {
                                page: page.offset,
                                offset_in_chunk,
                                alignment: alignment.input,
                                codec,
                            },
                        ),
                    );
                }
                let output_offset: usize = match checked_next_multiple(
                    output_len,
                    alignment.output,
                ) {
                    Some(offset) => offset,
                    None => {
                        assert(!group_fits(views, codec, alignment)) by {
                            assert(first_error(all.take(done + 1), codec, alignment) is None);
                        }
                        return None;
                    },
                };
                output_len = match output_offset.checked_add(page.uncompressed_len) {
                    Some(end) => end,
                    None => {
                        assert(!group_fits(views, codec, alignment)) by {
                            assert(first_error(all.take(done + 1), codec, alignment) is None);
                        }
                        return None;
                    },
                };
                if page.uncompressed_len > max_uncompressed {
                    max_uncompressed = page.uncompressed_len;
                }
                pages.push(
                    PlannedPage {
                        chunk: index,
                        offset_in_chunk,
                        compressed_len: page.compressed_len,
                        uncompressed_len: page.uncompressed_len,
                        output_offset,
                    },
                );
                proof {
                    done = done + 1;
                }
                i = i + 1;
            }
            proof {
                assert(views.take(index + 1).drop_last() =~= views.take(index as int));
                lemma_located_prefix(views, index + 1);
            }
            index = index + 1;
        }
        proof {
            assert(views.take(index as int) =~= views);
            assert(all.take(done) =~= all);
            assert(planned_chunks(views).take(index as int) =~= planned_chunks(views));
            lemma_fits_up_to_error(all, done, codec, alignment);
        }
        Some(Ok(RowGroupPlan { chunks: planned, pages, output_len, max_uncompressed }))
    }

    /// Plans the launch over a row group: every page decompressed in place from its chunk,
    /// to the next aligned place in the output.
    ///
    /// The output must be addressable; [`RowGroupPlan::checked_build`] tests that first.
    pub fn build(
        chunks: &[ColumnChunkPages],
        codec: GpuCodec,
        alignment: AlignmentRequirements,
    ) -> (built: Result<Self, PlanError>)
        requires
            group_fits(chunks_view(chunks@), codec, alignment),
        ensures
            match (built, group_plan(chunks_view(chunks@), codec, alignment)) {
                (Ok(plan), Ok(expected)) => plan@ == expected,
                (Err(error), Err(expected)) => error == expected,
                _ => false,
            },
            built matches Ok(plan) ==> {
                let expected = group_plan(chunks_view(chunks@), codec, alignment)->Ok_0;
                &&& plan.chunks@ == expected.chunks
                &&& plan.pages@ == expected.pages
                &&& plan.output_len == expected.output_len
                &&& plan.max_uncompressed == expected.max_uncompressed
                &&& plan.chunks@.len() == chunks@.len()
                &&& forall|k: int|
                    0 <= k < chunks@.len() ==> (#[trigger] plan.chunks@[k]).offset
                        == chunks@[k].offset && plan.chunks@[k].len == chunks@[k].len
            },
    {
        RowGroupPlan::checked_build(chunks, codec, alignment).unwrap()
    }
}

/// Plans every row group in order.
fn checked_group_plans(
    row_groups: &[Vec<ColumnChunkPages>],
    codec: GpuCodec,
    alignment: AlignmentRequirements,
) -> (built: Option<Result<Vec<RowGroupPlan>, PlanError>>)
    ensures
        built is Some <==> groups_fit(row_groups_view(row_groups@), codec, alignment),
        match (built, group_plans(row_groups_view(row_groups@), codec, alignment)) {
            (Some(Ok(plans)), Ok(expected)) => plans_view(plans@) == expected,
            (Some(Err(error)), Err(expected)) => error == expected,
            (None, _) => true,
            _ => false,
        },
{
    let ghost views = row_groups_view(row_groups@);
    let ghost f = |chunks: Seq<ChunkPages>| group_plan(chunks, codec, alignment);
    let mut plans: Vec<RowGroupPlan> = Vec::with_capacity(row_groups.len());
    assert(views.take(0) =~= Seq::empty());
    assert(plans_view(plans@) =~= Seq::empty());
    let mut i: usize = 0;
    while i < row_groups.len()
        invariant
            views == row_groups_view(row_groups@),
            f == (|chunks: Seq<ChunkPages>| group_plan(chunks, codec, alignment)),
            i <= row_groups@.len(),
            collect(views.take(i as int), f) == Ok::<Seq<GroupPlan>, PlanError>(
                plans_view(plans@),
            ),
            forall|k: int| 0 <= k < i ==> group_fits(#[trigger] views[k], codec, alignment),
        decreases row_groups@.len() - i,
    {
        proof {
            lemma_collect_next(views, f, i as int);
        }
        let chunks: &[ColumnChunkPages] = row_groups[i].as_slice();
        assert(views[i as int] == chunks_view(chunks@));
        let plan: RowGroupPlan = match RowGroupPlan::checked_build(chunks, codec, alignment) {
            None => {
                assert(!groups_fit(views, codec, alignment)) by {
                    assert(group_plans(views.take(i as int), codec, alignment) is Ok);
                    assert(!group_fits(views[i as int], codec, alignment));
                }
                return None;
            },
            Some(Err(error)) => {
                proof {
                    lemma_collect_error(views, f, i + 1);
                    lemma_groups_fit_up_to_error(views, i as int, codec, alignment);
                }
                return Some(Err(error));
            },
            Some(Ok(plan)) => plan,
        };
        let ghost before = plans@;
        plans.push(plan);
        assert(plans_view(plans@) =~= plans_view(before).push(plan@));
        i = i + 1;
    }
    assert(views.take(i as int) =~= views);
    Some(Ok(plans))
}

/// Once a row group cannot be planned nothing more is asked of the output.
proof fn lemma_groups_fit_up_to_error(
    row_groups: Seq<Seq<ChunkPages>>,
    i: int,
    codec: GpuCodec,
    alignment: AlignmentRequirements,
)
    requires
        0 <= i < row_groups.len(),
        group_plans(row_groups.take(i + 1), codec, alignment) is Err,
        forall|k: int|
            0 <= k <= i ==> group_fits(#[trigger] row_groups[k], codec, alignment),
    ensures
        groups_fit(row_groups, codec, alignment),
{
    let f = |chunks: Seq<ChunkPages>| group_plan(chunks, codec, alignment);
    assert forall|k: int|
        0 <= k < row_groups.len() && group_plans(
            row_groups.take(k),
            codec,
            alignment,
        ) is Ok implies group_fits(#[trigger] row_groups[k], codec, alignment) by {
        if k > i {
            assert(row_groups.take(k).take(i + 1) =~= row_groups.take(i + 1));
            lemma_collect_error(row_groups.take(k), f, i + 1);
        }
    }
}

/// Decides whether there is anything to decompress.
fn has_pages(plans: &Vec<RowGroupPlan>) -> (any: bool)
    ensures
        any == any_pages(plans_view(plans@)),
{
    let mut i: usize = 0;
    while i < plans.len()
        invariant
            i <= plans@.len(),
            forall|k: int| 0 <= k < i ==> (#[trigger] plans_view(plans@)[k]).pages.len() == 0,
        decreases plans@.len() - i,
    {
        if plans[i].pages.len() > 0 {
            assert(plans_view(plans@)[i as int].pages.len() > 0);
            return true;
        }
        i = i + 1;
    }
    false
}

/// Whether a plan was built as `expected`: the same plans, or the same error.
pub open spec fn builds(
    built: Result<DecompressPlan, PlanError>,
    expected: Result<Seq<GroupPlan>, PlanError>,
) -> bool {
    match (built, expected) {
        (Ok(plan), Ok(plans)) => plan@ == plans,
        (Err(error), Err(reported)) => error == reported,
        _ => false,
    }
}

impl DecompressPlan {
    /// Plans the launches over a file as [`DecompressPlan::build`] does, or returns `None`
    /// where the output of some row group cannot be addressed.
    pub fn checked_build(
        row_groups: &[Vec<ColumnChunkPages>],
        codec: GpuCodec,
        alignment: Result<AlignmentRequirements, NvcompError>,
    ) -> (built: Option<Result<Self, PlanError>>)
        ensures
            built is Some <==> file_fits(row_groups_view(row_groups@), codec, alignment),
            built matches Some(result) ==> builds(
                result,
                file_plan(row_groups_view(row_groups@), codec, alignment),
            ),
            built matches Some(Ok(plan)) ==> {
                let plans = file_plan(row_groups_view(row_groups@), codec, alignment)->Ok_0;
                &&& plan.row_groups@.len() == row_groups@.len()
                &&& plans.len() == row_groups@.len()
                &&& forall|i: int|
                    0 <= i < plans.len() ==> {
                        let group = #[trigger] plan.row_groups@[i];
                        &&& group.chunks@ == plans[i].chunks
                        &&& group.pages@ == plans[i].pages
                        &&& group.output_len == plans[i].output_len
                        &&& group.max_uncompressed == plans[i].max_uncompressed
                    }
            },
            built matches Some(Err(error)) ==> file_plan(
                row_groups_view(row_groups@),
                codec,
                alignment,
            ) == Err::<Seq<GroupPlan>, PlanError>(error),
    {
        let ghost answer = alignment;
        let alignment: AlignmentRequirements = match alignment {
            Ok(alignment) => alignment,
            Err(error) => return Some(Err(PlanError::AlignmentQuery(error))),
        };
        if !is_power_of_two(alignment.output) {
            return Some(Err(PlanError::OutputAlignment(alignment.output)));
        }
        match checked_group_plans(row_groups, codec, alignment) {
            None => None,
            Some(Err(error)) => Some(Err(error)),
            Some(Ok(plans)) => if has_pages(&plans) {
                proof {
                    law_file_plan_keeps_row_groups(row_groups_view(row_groups@), codec, answer);
                    assert forall|i: int| 0 <= i < plans@.len() implies #[trigger] plans@[i]@
                        == plans_view(plans@)[i] by {}
                }
                Some(Ok(DecompressPlan { row_groups: plans }))
            } else {
                Some(Err(PlanError::NoPages))
            },
        }
    }

    /// Plans one launch per row group, given what nvcomp answered when asked which alignments
    /// the codec needs. Fails where that query failed, and where there is nothing to
    /// decompress.
    ///
    /// The output of each row group must be addressable; [`DecompressPlan::checked_build`]
    /// tests that first.
    pub fn build(
        row_groups: &[Vec<ColumnChunkPages>],
        codec: GpuCodec,
        alignment: Result<AlignmentRequirements, NvcompError>,
    ) -> (built: Result<Self, PlanError>)
        requires
            file_fits(row_groups_view(row_groups@), codec, alignment),
        ensures
            builds(built, file_plan(row_groups_view(row_groups@), codec, alignment)),
            built matches Ok(plan) ==> {
                let plans = file_plan(row_groups_view(row_groups@), codec, alignment)->Ok_0;
                &&& plan.row_groups@.len() == row_groups@.len()
                &&& plans.len() == row_groups@.len()
                &&& forall|i: int|
                    0 <= i < plans.len() ==> {
                        let group = #[trigger] plan.row_groups@[i];
                        &&& group.chunks@ == plans[i].chunks
                        &&& group.pages@ == plans[i].pages
                        &&& group.output_len == plans[i].output_len
                        &&& group.max_uncompressed == plans[i].max_uncompressed
                    }
            },
            built matches Err(error) ==> file_plan(row_groups_view(row_groups@), codec, alignment)
                == Err::<Seq<GroupPlan>, PlanError>(error),
    {
        DecompressPlan::checked_build(row_groups, codec, alignment).unwrap()
    }
}

/// The next multiple is a multiple, and no less.
proof fn lemma_next_multiple(n: nat, factor: nat)
    requires
        factor > 0,
    ensures
        next_multiple(n, factor) >= n,
        next_multiple(n, factor) % factor == 0,
        next_multiple(n, factor) < n + factor,
{
    if n % factor != 0 {
        vstd::arithmetic::div_mod::lemma_fundamental_div_mod(n as int, factor as int);
        let quotient: int = n as int / factor as int;
        assert((quotient + 1) * factor == factor * quotient + factor) by (nonlinear_arith);
        vstd::arithmetic::div_mod::lemma_mod_multiples_basic(quotient + 1, factor as int);
    }
}

/// The output only grows with the pages.
proof fn lemma_output_grows(pages: Seq<LocatedPage>, i: int, alignment: nat)
    requires
        0 <= i <= pages.len(),
        alignment > 0,
    ensures
        output_end(pages.take(i), alignment) <= output_end(pages, alignment),
    decreases pages.len(),
{
    if i < pages.len() {
        assert(pages.drop_last().take(i) =~= pages.take(i));
        lemma_output_grows(pages.drop_last(), i, alignment);
        lemma_next_multiple(output_end(pages.drop_last(), alignment), alignment);
    } else {
        assert(pages.take(i) =~= pages);
    }
}

/// No page of a plan is in error where the first error of all is none.
proof fn lemma_no_error(
    pages: Seq<LocatedPage>,
    i: int,
    codec: GpuCodec,
    alignment: AlignmentRequirements,
)
    requires
        0 <= i < pages.len(),
        first_error(pages, codec, alignment) is None,
    ensures
        pages[i].error(codec, alignment) is None,
    decreases pages.len(),
{
    if i < pages.len() - 1 {
        lemma_no_error(pages.drop_last(), i, codec, alignment);
    }
}

/// The longest page is as long as any.
proof fn lemma_longest(pages: Seq<LocatedPage>)
    ensures
        forall|i: int|
            0 <= i < pages.len() ==> (#[trigger] pages[i]).page.uncompressed_len <= longest(pages),
        pages.len() > 0 ==> exists|i: int|
            0 <= i < pages.len() && (#[trigger] pages[i]).page.uncompressed_len == longest(pages),
    decreases pages.len(),
{
    if pages.len() > 0 {
        let before = pages.drop_last();
        lemma_longest(before);
        assert forall|i: int| 0 <= i < pages.len() implies (
        #[trigger] pages[i]).page.uncompressed_len <= longest(pages) by {
            if i < before.len() {
                assert(before[i] == pages[i]);
            }
        }
        if pages.last().page.uncompressed_len > longest(before) || before.len() == 0 {
            assert(pages[pages.len() - 1].page.uncompressed_len == longest(pages));
        } else {
            let i = choose|i: int|
                0 <= i < before.len() && (#[trigger] before[i]).page.uncompressed_len == longest(
                    before,
                );
            assert(pages[i].page.uncompressed_len == longest(pages));
        }
    }
}

/// Whether the output of the pages lies in one buffer of `output_len` bytes, aligned, in
/// order, and without overlap.
pub open spec fn laid_out(
    pages: Seq<PlannedPage>,
    alignment: AlignmentRequirements,
    output_len: usize,
) -> bool {
    &&& forall|i: int|
        0 <= i < pages.len() ==> {
            &&& multiple_of((#[trigger] pages[i]).offset_in_chunk as int, alignment.input as int)
            &&& multiple_of(pages[i].output_offset as int, alignment.output as int)
            &&& pages[i].output_offset + pages[i].uncompressed_len <= output_len
        }
    &&& forall|i: int, j: int|
        0 <= i < j < pages.len() ==> (#[trigger] pages[i]).output_offset + pages[i].uncompressed_len
            <= (#[trigger] pages[j]).output_offset
}

/// A planned launch reads every page at an aligned place and writes it to an aligned place,
/// in order, without overlap and within the output buffer.
pub proof fn law_plan_lays_pages_out(
    chunks: Seq<ChunkPages>,
    codec: GpuCodec,
    alignment: AlignmentRequirements,
)
    requires
        group_fits(chunks, codec, alignment),
        group_plan(chunks, codec, alignment) is Ok,
    ensures
        laid_out(
            group_plan(chunks, codec, alignment)->Ok_0.pages,
            alignment,
            group_plan(chunks, codec, alignment)->Ok_0.output_len,
        ),
{
    let all = located(chunks);
    let factor = alignment.output as nat;
    let plan = group_plan(chunks, codec, alignment)->Ok_0;
    let pages = plan.pages;
    if all.len() > 0 {
        assert(all.take(all.len() as int) =~= all);
        assert(factor > 0 && output_end(all, factor) <= usize::MAX);
        assert forall|i: int| 0 <= i < pages.len() implies ({
            &&& multiple_of((#[trigger] pages[i]).offset_in_chunk as int, alignment.input as int)
            &&& multiple_of(pages[i].output_offset as int, alignment.output as int)
            &&& pages[i].output_offset == next_multiple(output_end(all.take(i), factor), factor)
            &&& pages[i].output_offset + pages[i].uncompressed_len == output_end(
                all.take(i + 1),
                factor,
            )
            &&& pages[i].output_offset + pages[i].uncompressed_len <= plan.output_len
        }) by {
            lemma_no_error(all, i, codec, alignment);
            lemma_planned_next(all, i, factor);
            lemma_output_grows(all, i + 1, factor);
            lemma_next_multiple(output_end(all.take(i), factor), factor);
        }
        assert forall|i: int, j: int| 0 <= i < j < pages.len() implies (
        #[trigger] pages[i]).output_offset + pages[i].uncompressed_len <= (
        #[trigger] pages[j]).output_offset by {
            assert(all.take(j).take(i + 1) =~= all.take(i + 1));
            lemma_output_grows(all.take(j), i + 1, factor);
            lemma_next_multiple(output_end(all.take(j), factor), factor);
        }
    }
}

/// The longest page of a plan is as long as any of its pages, and one of them.
pub proof fn law_plan_knows_its_longest_page(
    chunks: Seq<ChunkPages>,
    codec: GpuCodec,
    alignment: AlignmentRequirements,
)
    requires
        group_plan(chunks, codec, alignment) is Ok,
    ensures
        ({
            let plan = group_plan(chunks, codec, alignment)->Ok_0;
            &&& forall|i: int|
                0 <= i < plan.pages.len() ==> (#[trigger] plan.pages[i]).uncompressed_len
                    <= plan.max_uncompressed
            &&& plan.pages.len() > 0 ==> exists|i: int|
                0 <= i < plan.pages.len() && (#[trigger] plan.pages[i]).uncompressed_len
                    == plan.max_uncompressed
            &&& plan.pages.len() == 0 ==> plan.max_uncompressed == 0 && plan.output_len == 0
        }),
{
    let all = located(chunks);
    let plan = group_plan(chunks, codec, alignment)->Ok_0;
    lemma_longest(all);
    assert forall|i: int| 0 <= i < plan.pages.len() implies (
    #[trigger] plan.pages[i]).uncompressed_len <= plan.max_uncompressed by {
        assert(all[i].page.uncompressed_len <= longest(all));
    }
    if all.len() > 0 {
        let i = choose|i: int|
            0 <= i < all.len() && (#[trigger] all[i]).page.uncompressed_len == longest(all);
        assert(plan.pages[i].uncompressed_len == plan.max_uncompressed);
    }
}

/// The pages of a row group's chunks are its pages, chunk by chunk.
proof fn lemma_located_chunk(chunks: Seq<ChunkPages>, i: int)
    requires
        0 <= i < located(chunks).len(),
    ensures
        ({
            let page = located(chunks)[i];
            &&& page.chunk < chunks.len()
            &&& page.chunk_offset == chunks[page.chunk as int].offset
            &&& chunks[page.chunk as int].pages.contains(page.page)
        }),
    decreases chunks.len(),
{
    let before = located(chunks.drop_last());
    if i < before.len() {
        lemma_located_chunk(chunks.drop_last(), i);
    } else {
        assert(located(chunks)[i] == located_in(
            chunks.last(),
            (chunks.len() - 1) as nat,
        )[i - before.len()]);
        assert(chunks.last().pages[i - before.len()] == located(chunks)[i].page);
    }
}

/// Whether the pages found in each chunk lie in that chunk, in file order.
pub open spec fn chunks_hold_their_pages(chunks: Seq<ChunkPages>) -> bool {
    forall|i: int|
        0 <= i < chunks.len() ==> in_order(
            (#[trigger] chunks[i]).pages,
            chunks[i].offset as nat,
            (chunks[i].offset + chunks[i].len) as nat,
        )
}

/// Whether every planned page lies within the staged bytes of its chunk.
pub open spec fn reads_staged_bytes(plan: GroupPlan) -> bool {
    forall|i: int|
        0 <= i < plan.pages.len() ==> (#[trigger] plan.pages[i]).chunk < plan.chunks.len()
            && plan.pages[i].offset_in_chunk + plan.pages[i].compressed_len
            <= plan.chunks[plan.pages[i].chunk as int].len
}

/// Every planned page is one that was found in the chunk that the plan names, at the place
/// that it names.
pub proof fn law_plan_takes_pages_from_their_chunks(
    chunks: Seq<ChunkPages>,
    codec: GpuCodec,
    alignment: AlignmentRequirements,
    i: int,
)
    requires
        chunks.len() <= usize::MAX,
        group_plan(chunks, codec, alignment) is Ok,
        0 <= i < group_plan(chunks, codec, alignment)->Ok_0.pages.len(),
    ensures
        ({
            let page = group_plan(chunks, codec, alignment)->Ok_0.pages[i];
            let chunk = chunks[page.chunk as int];
            &&& page.chunk < chunks.len()
            &&& exists|j: int|
                0 <= j < chunk.pages.len() && (#[trigger] chunk.pages[j]).offset == chunk.offset
                    + page.offset_in_chunk && chunk.pages[j].compressed_len == page.compressed_len
                    && chunk.pages[j].uncompressed_len == page.uncompressed_len
        }),
{
    let all = located(chunks);
    lemma_located_chunk(chunks, i);
    lemma_no_error(all, i, codec, alignment);
    let page = group_plan(chunks, codec, alignment)->Ok_0.pages[i];
    assert(page.chunk == all[i].chunk);
    let chunk = chunks[page.chunk as int];
    let j = choose|j: int| 0 <= j < chunk.pages.len() && chunk.pages[j] == all[i].page;
    assert(chunk.pages[j].offset == chunk.offset + page.offset_in_chunk);
}

/// Where the pages of each chunk lie in it, as those of a scan do, no page is refused for
/// preceding its chunk, and a planned launch reads only bytes that were staged.
pub proof fn law_plan_reads_staged_bytes(
    chunks: Seq<ChunkPages>,
    codec: GpuCodec,
    alignment: AlignmentRequirements,
)
    requires
        chunks.len() <= usize::MAX,
        chunks_hold_their_pages(chunks),
    ensures
        match group_plan(chunks, codec, alignment) {
            Ok(plan) => reads_staged_bytes(plan),
            Err(error) => error is Misaligned,
        },
{
    let all = located(chunks);
    if group_plan(chunks, codec, alignment) is Ok {
        let plan = group_plan(chunks, codec, alignment)->Ok_0;
        assert forall|i: int| 0 <= i < plan.pages.len() implies (#[trigger] plan.pages[i]).chunk
            < plan.chunks.len() && plan.pages[i].offset_in_chunk + plan.pages[i].compressed_len
            <= plan.chunks[plan.pages[i].chunk as int].len by {
            lemma_located_chunk(chunks, i);
            lemma_no_error(all, i, codec, alignment);
            let chunk = chunks[all[i].chunk as int];
            let j = choose|j: int|
                0 <= j < chunk.pages.len() && chunk.pages[j] == all[i].page;
            assert(chunk.pages[j].offset + chunk.pages[j].compressed_len <= chunk.offset
                + chunk.len);
        }
    } else {
        lemma_first_error_is_misaligned(chunks, all.len() as int, codec, alignment);
        assert(all.take(all.len() as int) =~= all);
    }
}

/// Pages that lie in their chunks do not precede them.
proof fn lemma_first_error_is_misaligned(
    chunks: Seq<ChunkPages>,
    n: int,
    codec: GpuCodec,
    alignment: AlignmentRequirements,
)
    requires
        0 <= n <= located(chunks).len(),
        chunks_hold_their_pages(chunks),
    ensures
        first_error(located(chunks).take(n), codec, alignment) matches Some(error)
            ==> error is Misaligned,
    decreases n,
{
    let all = located(chunks);
    if n > 0 {
        lemma_first_error_is_misaligned(chunks, n - 1, codec, alignment);
        assert(all.take(n).drop_last() =~= all.take(n - 1));
        lemma_located_chunk(chunks, n - 1);
        let chunk = chunks[all[n - 1].chunk as int];
        let j = choose|j: int| 0 <= j < chunk.pages.len() && chunk.pages[j] == all[n - 1].page;
        assert(chunk.offset < chunk.pages[j].offset);
    }
}

/// A file plan has one launch per row group, each that of its row group alone, and something
/// to decompress.
pub proof fn law_file_plan_keeps_row_groups(
    row_groups: Seq<Seq<ChunkPages>>,
    codec: GpuCodec,
    alignment: Result<AlignmentRequirements, NvcompError>,
)
    requires
        file_plan(row_groups, codec, alignment) is Ok,
    ensures
        ({
            let plans = file_plan(row_groups, codec, alignment)->Ok_0;
            &&& alignment is Ok
            &&& plans.len() == row_groups.len()
            &&& any_pages(plans)
            &&& forall|i: int|
                0 <= i < plans.len() ==> group_plan(row_groups[i], codec, alignment->Ok_0) == Ok::<
                    GroupPlan,
                    PlanError,
                >(#[trigger] plans[i])
        }),
{
    let f = |chunks: Seq<ChunkPages>| group_plan(chunks, codec, alignment->Ok_0);
    lemma_collect_ok(row_groups, f);
    let plans = file_plan(row_groups, codec, alignment)->Ok_0;
    assert forall|i: int| 0 <= i < plans.len() implies group_plan(
        row_groups[i],
        codec,
        alignment->Ok_0,
    ) == Ok::<GroupPlan, PlanError>(#[trigger] plans[i]) by {
        assert(f(row_groups[i]) == Ok::<GroupPlan, PlanError>(plans[i]));
    }
}

/// The pages of a row group, one chunk behind the other, each with the number of its chunk and
/// where in the file that starts.
pub open spec fn listed(chunks: Seq<ChunkPages>) -> Seq<(int, u64, CompressedPage)> {
    Seq::new(
        chunks.len(),
        |k: int|
            Seq::new(
                chunks[k].pages.len(),
                |j: int| (k, chunks[k].offset, chunks[k].pages[j]),
            ),
    ).flatten()
}

/// The pages as listed are the pages as located.
proof fn lemma_listed(chunks: Seq<ChunkPages>)
    ensures
        listed(chunks) == located(chunks).map_values(
            |page: LocatedPage| (page.chunk as int, page.chunk_offset, page.page),
        ),
    decreases chunks.len(),
{
    let nested = Seq::new(
        chunks.len(),
        |k: int|
            Seq::new(
                chunks[k].pages.len(),
                |j: int| (k, chunks[k].offset, chunks[k].pages[j]),
            ),
    );
    let f = |page: LocatedPage| (page.chunk as int, page.chunk_offset, page.page);
    nested.lemma_flatten_and_flatten_alt_are_equivalent();
    if chunks.len() > 0 {
        let shorter = chunks.drop_last();
        lemma_listed(shorter);
        let before = Seq::new(
            shorter.len(),
            |k: int|
                Seq::new(
                    shorter[k].pages.len(),
                    |j: int| (k, shorter[k].offset, shorter[k].pages[j]),
                ),
        );
        before.lemma_flatten_and_flatten_alt_are_equivalent();
        assert forall|k: int| 0 <= k < shorter.len() implies nested.drop_last()[k]
            == before[k] by {
            assert(nested.drop_last()[k] =~= before[k]);
        }
        assert(nested.drop_last() =~= before);
        let last = located_in(chunks.last(), (chunks.len() - 1) as nat);
        assert(nested.last() =~= last.map_values(f));
    }
    assert(listed(chunks) =~= located(chunks).map_values(f));
}

/// A plan stages exactly the chunks that it was given: as many, and each from its place in the
/// file and at its length.
pub proof fn law_plan_stages_its_chunks(
    chunks: Seq<ChunkPages>,
    codec: GpuCodec,
    alignment: AlignmentRequirements,
)
    requires
        group_plan(chunks, codec, alignment) is Ok,
    ensures
        ({
            let plan = group_plan(chunks, codec, alignment)->Ok_0;
            &&& plan.chunks.len() == chunks.len()
            &&& forall|k: int|
                0 <= k < chunks.len() ==> (#[trigger] plan.chunks[k]).offset == chunks[k].offset
                    && plan.chunks[k].len == chunks[k].len
        }),
{
}

/// A plan has every page of its row group, once and in order, each in its own chunk, at its
/// own place and with its own lengths: where its chunk is staged from, and its offset there,
/// add up to where in the file it is.
pub proof fn law_plan_has_every_page(
    chunks: Seq<ChunkPages>,
    codec: GpuCodec,
    alignment: AlignmentRequirements,
)
    requires
        chunks.len() <= usize::MAX,
        group_plan(chunks, codec, alignment) is Ok,
    ensures
        ({
            let plan = group_plan(chunks, codec, alignment)->Ok_0;
            &&& plan.pages.len() == listed(chunks).len()
            &&& forall|i: int|
                0 <= i < plan.pages.len() ==> {
                    let (chunk, chunk_offset, page) = listed(chunks)[i];
                    let planned = #[trigger] plan.pages[i];
                    &&& planned.chunk == chunk < plan.chunks.len()
                    &&& plan.chunks[chunk].offset == chunk_offset
                    &&& chunk_offset + planned.offset_in_chunk == page.offset
                    &&& planned.compressed_len == page.compressed_len
                    &&& planned.uncompressed_len == page.uncompressed_len
                }
        }),
{
    lemma_listed(chunks);
    let plan = group_plan(chunks, codec, alignment)->Ok_0;
    assert forall|i: int| 0 <= i < plan.pages.len() implies {
        let (chunk, chunk_offset, page) = listed(chunks)[i];
        let planned = #[trigger] plan.pages[i];
        &&& planned.chunk == chunk < plan.chunks.len()
        &&& plan.chunks[chunk].offset == chunk_offset
        &&& chunk_offset + planned.offset_in_chunk == page.offset
        &&& planned.compressed_len == page.compressed_len
        &&& planned.uncompressed_len == page.uncompressed_len
    } by {
        lemma_located_chunk(chunks, i);
        lemma_no_error(located(chunks), i, codec, alignment);
    }
}

/// The output of a plan is packed: the first page stands at its start, each other at the next
/// aligned place behind the one before, and the output ends with the last page.
pub proof fn law_plan_packs_its_output(
    chunks: Seq<ChunkPages>,
    codec: GpuCodec,
    alignment: AlignmentRequirements,
)
    requires
        group_fits(chunks, codec, alignment),
        group_plan(chunks, codec, alignment) is Ok,
    ensures
        ({
            let plan = group_plan(chunks, codec, alignment)->Ok_0;
            let pages = plan.pages;
            &&& pages.len() == 0 ==> plan.output_len == 0
            &&& pages.len() > 0 ==> pages[0].output_offset == 0 && plan.output_len
                == pages.last().output_offset + pages.last().uncompressed_len
            &&& forall|i: int|
                0 < i < pages.len() ==> {
                    let before = pages[i - 1].output_offset + pages[i - 1].uncompressed_len;
                    let at = (#[trigger] pages[i]).output_offset;
                    &&& before <= at < before + alignment.output
                    &&& at % alignment.output == 0
                }
        }),
{
    let all = located(chunks);
    let factor = alignment.output as nat;
    let plan = group_plan(chunks, codec, alignment)->Ok_0;
    let pages = plan.pages;
    if all.len() > 0 {
        assert(all.take(all.len() as int) =~= all);
        assert(factor > 0 && output_end(all, factor) <= usize::MAX);
        assert forall|i: int| 0 <= i < pages.len() implies {
            &&& (#[trigger] pages[i]).output_offset == next_multiple(
                output_end(all.take(i), factor),
                factor,
            )
            &&& pages[i].output_offset + pages[i].uncompressed_len == output_end(
                all.take(i + 1),
                factor,
            )
        } by {
            lemma_planned_next(all, i, factor);
            lemma_output_grows(all, i + 1, factor);
            lemma_next_multiple(output_end(all.take(i), factor), factor);
        }
        assert(all.take(0).len() == 0);
        assert(output_end(all.take(0), factor) == 0);
        vstd::arithmetic::div_mod::lemma_small_mod(0, factor);
        assert(next_multiple(0, factor) == 0);
        assert(pages[0].output_offset == 0);
        assert(pages.last() == pages[pages.len() - 1]);
        assert forall|i: int| 0 < i < pages.len() implies {
            let before = pages[i - 1].output_offset + pages[i - 1].uncompressed_len;
            let at = (#[trigger] pages[i]).output_offset;
            &&& before <= at < before + alignment.output
            &&& at % alignment.output == 0
        } by {
            lemma_next_multiple(output_end(all.take(i), factor), factor);
            assert(pages[i - 1].output_offset + pages[i - 1].uncompressed_len == output_end(
                all.take(i),
                factor,
            ));
        }
    }
}

/// Whether a page can be decompressed in place: it does not precede its chunk, and its offset
/// there is a multiple of the input alignment.
pub open spec fn in_place(listed_page: (int, u64, CompressedPage), input: usize) -> bool {
    let (_, chunk_offset, page) = listed_page;
    &&& chunk_offset <= page.offset
    &&& if input == 0 {
        page.offset == chunk_offset
    } else {
        (page.offset - chunk_offset) % (input as int) == 0
    }
}

/// A row group can be planned exactly where each of its pages can be decompressed in place;
/// else the fault of the first page that cannot be is reported.
pub proof fn law_plan_reports_the_first_fault(
    chunks: Seq<ChunkPages>,
    codec: GpuCodec,
    alignment: AlignmentRequirements,
)
    ensures
        match group_plan(chunks, codec, alignment) {
            Ok(_) => forall|i: int|
                0 <= i < listed(chunks).len() ==> in_place(
                    #[trigger] listed(chunks)[i],
                    alignment.input,
                ),
            Err(error) => exists|i: int|
                {
                    let (_, chunk_offset, page) = #[trigger] listed(chunks)[i];
                    &&& 0 <= i < listed(chunks).len()
                    &&& !in_place(listed(chunks)[i], alignment.input)
                    &&& forall|j: int|
                        0 <= j < i ==> in_place(#[trigger] listed(chunks)[j], alignment.input)
                    &&& error == if page.offset < chunk_offset {
                        PlanError::PagePrecedesChunk { page: page.offset, chunk: chunk_offset }
                    } else {
                        PlanError::Misaligned {
                            page: page.offset,
                            offset_in_chunk: (page.offset - chunk_offset) as usize,
                            alignment: alignment.input,
                            codec,
                        }
                    }
                },
        },
{
    let all = located(chunks);
    let f = |index: int, page: LocatedPage| page.error(codec, alignment);
    lemma_listed(chunks);
    law_first_found_is_first(all, f);
    match first_error(all, codec, alignment) {
        None => {
            assert forall|i: int| 0 <= i < listed(chunks).len() implies in_place(
                #[trigger] listed(chunks)[i],
                alignment.input,
            ) by {
                assert(f(i, all[i]) is None);
            }
        },
        Some(error) => {
            let i = choose|i: int|
                0 <= i < all.len() && f(i, #[trigger] all[i]) == Some(error) && forall|j: int|
                    0 <= j < i ==> f(j, #[trigger] all[j]) is None;
            let witness = listed(chunks)[i];
            assert forall|j: int| 0 <= j < i implies in_place(
                #[trigger] listed(chunks)[j],
                alignment.input,
            ) by {
                assert(f(j, all[j]) is None);
            }
            assert(!in_place(witness, alignment.input));
        },
    }
}

/// Where no page is longer than `longest_page`, and as many pages of that length with their
/// padding can be addressed, the output of a row group can.
pub proof fn law_small_outputs_fit(
    chunks: Seq<ChunkPages>,
    codec: GpuCodec,
    alignment: AlignmentRequirements,
    longest_page: nat,
)
    requires
        alignment.output > 0,
        forall|i: int|
            0 <= i < listed(chunks).len() ==> (#[trigger] listed(chunks)[i]).2.uncompressed_len
                <= longest_page,
        listed(chunks).len() * (longest_page + alignment.output) <= usize::MAX,
    ensures
        group_fits(chunks, codec, alignment),
{
    let all = located(chunks);
    lemma_listed(chunks);
    assert forall|i: int| 0 <= i < all.len() implies (#[trigger] all[i]).page.uncompressed_len
        <= longest_page by {
        assert(listed(chunks)[i].2 == all[i].page);
    }
    assert forall|i: int|
        0 < i <= all.len() && first_error(#[trigger] all.take(i), codec, alignment) is None implies
        alignment.output > 0 && output_end(all.take(i), alignment.output as nat)
        <= usize::MAX by {
        lemma_output_bounded(all.take(i), alignment.output as nat, longest_page);
        assert(i * (longest_page + alignment.output) <= all.len() * (longest_page
            + alignment.output)) by (nonlinear_arith)
            requires
                0 <= i <= all.len(),
        ;
    }
}

/// The output takes no more than as many of the longest pages with their padding.
proof fn lemma_output_bounded(pages: Seq<LocatedPage>, factor: nat, longest_page: nat)
    requires
        factor > 0,
        forall|i: int|
            0 <= i < pages.len() ==> (#[trigger] pages[i]).page.uncompressed_len <= longest_page,
    ensures
        output_end(pages, factor) <= pages.len() * (longest_page + factor),
    decreases pages.len(),
{
    if pages.len() > 0 {
        let before = pages.drop_last();
        lemma_output_bounded(before, factor, longest_page);
        lemma_next_multiple(output_end(before, factor), factor);
        assert(pages.last() == pages[pages.len() - 1]);
        assert(pages.len() * (longest_page + factor) == before.len() * (longest_page + factor) + (
        longest_page + factor)) by (nonlinear_arith)
            requires
                pages.len() == before.len() + 1,
        ;
    } else {
        assert(pages.len() * (longest_page + factor) == 0) by (nonlinear_arith)
            requires
                pages.len() == 0,
        ;
    }
}

/// A file is planned exactly where nvcomp said which alignments it needs, the output alignment
/// is a power of two, every row group can be planned, and some has pages; else the first of
/// these that does not hold is reported.
pub proof fn law_file_plan_reports_the_first_fault(
    row_groups: Seq<Seq<ChunkPages>>,
    codec: GpuCodec,
    alignment: Result<AlignmentRequirements, NvcompError>,
)
    ensures
        match alignment {
            Err(error) => file_plan(row_groups, codec, alignment) == Err::<
                Seq<GroupPlan>,
                PlanError,
            >(PlanError::AlignmentQuery(error)),
            Ok(needed) => if !(exists|n: nat| needed.output == #[trigger] pow2(n)) {
                file_plan(row_groups, codec, alignment) == Err::<Seq<GroupPlan>, PlanError>(
                    PlanError::OutputAlignment(needed.output),
                )
            } else {
                match file_plan(row_groups, codec, alignment) {
                    Ok(plans) => {
                        &&& plans.len() == row_groups.len()
                        &&& forall|i: int|
                            0 <= i < plans.len() ==> group_plan(row_groups[i], codec, needed)
                                == Ok::<GroupPlan, PlanError>(#[trigger] plans[i])
                        &&& exists|i: int|
                            0 <= i < plans.len() && (#[trigger] plans[i]).pages.len() > 0
                    },
                    Err(PlanError::NoPages) => forall|i: int|
                        0 <= i < row_groups.len() ==> (group_plan(
                            #[trigger] row_groups[i],
                            codec,
                            needed,
                        ) matches Ok(plan) && plan.pages.len() == 0),
                    Err(error) => exists|i: int|
                        0 <= i < row_groups.len() && group_plan(
                            #[trigger] row_groups[i],
                            codec,
                            needed,
                        ) == Err::<GroupPlan, PlanError>(error) && forall|j: int|
                            0 <= j < i ==> group_plan(
                                #[trigger] row_groups[j],
                                codec,
                                needed,
                            ) is Ok,
                }
            },
        },
{
    if let Ok(needed) = alignment {
        is_pow2_equiv(needed.output as int);
        let f = |chunks: Seq<ChunkPages>| group_plan(chunks, codec, needed);
        law_collecting_stops_at_the_first_error(row_groups, f);
        if exists|n: nat| needed.output == #[trigger] pow2(n) {
            let n = choose|n: nat| needed.output == #[trigger] pow2(n);
            lemma_pow2(n);
            assert(pow(2, n) == needed.output);
            assert(is_pow2_exists(needed.output as int));
            match group_plans(row_groups, codec, needed) {
                Ok(plans) => {
                    assert forall|i: int| 0 <= i < plans.len() implies group_plan(
                        row_groups[i],
                        codec,
                        needed,
                    ) == Ok::<GroupPlan, PlanError>(#[trigger] plans[i]) by {
                        assert(f(row_groups[i]) == Ok::<GroupPlan, PlanError>(plans[i]));
                    }
                    if !any_pages(plans) {
                        assert forall|i: int| 0 <= i < row_groups.len() implies (group_plan(
                            #[trigger] row_groups[i],
                            codec,
                            needed,
                        ) matches Ok(plan) && plan.pages.len() == 0) by {
                            assert(plans[i].pages.len() == 0);
                        }
                    }
                },
                Err(error) => {
                    let i = choose|i: int|
                        0 <= i < row_groups.len() && f(#[trigger] row_groups[i]) == Err::<
                            GroupPlan,
                            PlanError,
                        >(error) && forall|j: int|
                            0 <= j < i ==> f(#[trigger] row_groups[j]) is Ok;
                    law_plan_reports_the_first_fault(row_groups[i], codec, needed);
                    assert(group_plan(row_groups[i], codec, needed) == Err::<
                        GroupPlan,
                        PlanError,
                    >(error));
                    assert forall|j: int| 0 <= j < i implies group_plan(
                        #[trigger] row_groups[j],
                        codec,
                        needed,
                    ) is Ok by {
                        assert(f(row_groups[j]) is Ok);
                    }
                },
            }
        } else {
            assert forall|n: nat| pow(2, n) != needed.output by {
                lemma_pow2(n);
                assert(needed.output != pow2(n));
            }
            assert(!is_pow2_exists(needed.output as int));
        }
    }
}

/// A file whose row groups can all be addressed can be planned or refused; so can one for
/// which nvcomp named no alignments.
pub proof fn law_addressable_files_fit(
    row_groups: Seq<Seq<ChunkPages>>,
    codec: GpuCodec,
    alignment: Result<AlignmentRequirements, NvcompError>,
)
    requires
        alignment matches Ok(needed) ==> forall|i: int|
            0 <= i < row_groups.len() ==> group_fits(#[trigger] row_groups[i], codec, needed),
    ensures
        file_fits(row_groups, codec, alignment),
{
}

} // verus!
