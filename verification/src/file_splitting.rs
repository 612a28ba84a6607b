//! Pagination engine: consumes an ordered list of source files and splits
//! their lines into framed pages spread over fixed-capacity containers.
//!
//! The engine is pure: reading source files and writing container files is
//! the caller's business. It receives each file's lines as values and
//! returns the containers as values, each a list of pages; `Container::render`
//! yields the exact text a container holds.

use vstd::prelude::*;

verus! {

use crate::output_formatting::PageFormat;
use crate::output_formatting::footer_chars;
use crate::output_formatting::header_chars;
use crate::output_formatting::lemma_header_size_monotone;
use crate::output_formatting::strip_root;
use vstd::utf8::is_ascii_chars;
use crate::text::byte_len;
use crate::text::dec_digits;
use crate::text::lemma_byte_len_ascii;
use crate::text::lemma_byte_len_concat;
use crate::text::u64_to_string;

/// One source file as handed to the engine: its identifier, the lines that
/// could be read from it (without terminators), and whether reading stopped
/// early because the content is not text.
pub struct SourceFile {
    pub path: String,
    pub lines: Vec<String>,
    pub truncated: bool,
}

/// One page inside a container: a contiguous run of lines of one source
/// file, framed by the header and footer that `file_path` and `page_number`
/// determine. `source` records, for specification purposes, the index of the
/// source file the page came from.
pub struct Page {
    pub file_path: String,
    pub page_number: u64,
    pub lines: Vec<String>,
    pub source: Ghost<int>,
}

/// One output container: its 1-based sequence number, its deterministic file
/// name, and the pages it holds, in order.
pub struct Container {
    pub sequence_number: u64,
    pub name: String,
    pub pages: Vec<Page>,
}

/// The fatal configuration failure: the capacity cannot hold even the bare
/// frame (header plus footer) of the named file's page.
#[derive(Debug)]
pub struct SplitError {
    pub file_path: String,
    pub page_number: u64,
    pub capacity: u64,
}

impl SplitError {
    /// The text of this failure.
    pub open spec fn message_chars(self) -> Seq<char> {
        "Error: The maximum file size ("@ + dec_digits(self.capacity as nat)
            + ") is too small to contain the page header and footer."@
    }

    /// Renders the failure as text.
    pub fn message(&self) -> (s: String)
        ensures
            s@ == self.message_chars(),
    {
        let mut s = String::from_str("Error: The maximum file size (");
        let capacity = u64_to_string(self.capacity);
        s.append(capacity.as_str());
        s.append(") is too small to contain the page header and footer.");
        proof {
            assert(s@ =~= self.message_chars());
        }
        s
    }
}

/// A successful run: the generated containers in order, and the identifiers
/// of the files whose content was cut short, surfaced as warnings.
pub struct SplitOutcome {
    pub containers: Vec<Container>,
    pub unreadable: Vec<String>,
}

/// A line as it stands in a container: the line's characters plus the
/// terminator.
pub open spec fn line_chars(l: Seq<char>) -> Seq<char> {
    l.push('\n')
}

/// The text of a page body: its lines, each with a terminator.
pub open spec fn body_chars(lines: Seq<String>) -> Seq<char>
    decreases lines.len(),
{
    if lines.len() == 0 {
        Seq::<char>::empty()
    } else {
        body_chars(lines.drop_last()) + line_chars(lines.last()@)
    }
}

/// The full text of a page: header, body, footer.
pub open spec fn page_chars(p: Page) -> Seq<char> {
    header_chars(p.file_path@, p.page_number as nat) + body_chars(p.lines@) + footer_chars(
        p.file_path@,
    )
}

/// The text of a run of pages, in order.
pub open spec fn pages_chars(ps: Seq<Page>) -> Seq<char>
    decreases ps.len(),
{
    if ps.len() == 0 {
        Seq::<char>::empty()
    } else {
        pages_chars(ps.drop_last()) + page_chars(ps.last())
    }
}

/// The full text of a container.
pub open spec fn container_chars(c: Container) -> Seq<char> {
    pages_chars(c.pages@)
}

/// The deterministic name of the container with the given sequence number.
pub open spec fn chunk_name_chars(base: Seq<char>, n: nat) -> Seq<char> {
    base + "_"@ + dec_digits(n) + ".txt"@
}

/// A root option as the character sequence it holds.
pub open spec fn root_view(root: Option<&str>) -> Option<Seq<char>> {
    match root {
        Some(r) => Some(r@),
        None => None,
    }
}

/// A file identifier as the engine renders it: relative to the root when one
/// is given.
pub open spec fn rel_chars(root: Option<Seq<char>>, path: Seq<char>) -> Seq<char> {
    match root {
        Some(r) => strip_root(r, path),
        None => path,
    }
}

/// All pages of a run of containers, in emission order.
pub open spec fn all_pages(cs: Seq<Container>) -> Seq<Page>
    decreases cs.len(),
{
    if cs.len() == 0 {
        Seq::<Page>::empty()
    } else {
        all_pages(cs.drop_last()) + cs.last().pages@
    }
}

/// The pages that came from the source file with index `i`, in order.
pub open spec fn pages_of_source(aps: Seq<Page>, i: int) -> Seq<Page>
    decreases aps.len(),
{
    if aps.len() == 0 {
        Seq::<Page>::empty()
    } else if aps.last().source@ == i {
        pages_of_source(aps.drop_last(), i).push(aps.last())
    } else {
        pages_of_source(aps.drop_last(), i)
    }
}

/// The bodies of a run of pages: one entry per line, in order.
pub open spec fn pages_lines(ps: Seq<Page>) -> Seq<Seq<char>>
    decreases ps.len(),
{
    if ps.len() == 0 {
        Seq::<Seq<char>>::empty()
    } else {
        pages_lines(ps.drop_last()) + ps.last().lines.deep_view()
    }
}

/// The identifiers (rendered relative to `root`) of the files marked
/// truncated, in input order.
pub open spec fn truncated_paths(files: Seq<SourceFile>, root: Option<Seq<char>>) -> Seq<
    Seq<char>,
>
    decreases files.len(),
{
    if files.len() == 0 {
        Seq::<Seq<char>>::empty()
    } else {
        truncated_paths(files.drop_last(), root) + if files.last().truncated {
            seq![rel_chars(root, files.last().path@)]
        } else {
            Seq::<Seq<char>>::empty()
        }
    }
}

/// The number of framing units a run handles: one per file plus one per
/// line. The engine requires this to fit below `u64::MAX`, a machine limit
/// on page and container counters.
pub open spec fn unit_count(files: Seq<SourceFile>) -> nat
    decreases files.len(),
{
    if files.len() == 0 {
        0
    } else {
        unit_count(files.drop_last()) + 1 + files.last().lines@.len()
    }
}

/// The frame of a page for `path` at page number `page` fits a container of
/// the given capacity, with no body at all.
pub open spec fn frame_fits(path: Seq<char>, page: nat, capacity: u64) -> bool {
    byte_len(header_chars(path, page)) + byte_len(footer_chars(path)) <= capacity
}

/// Every file's frame fits the capacity even at the highest page number the
/// run could reach for it (one page per line, plus the opening page).
pub open spec fn frames_fit(files: Seq<SourceFile>, root: Option<Seq<char>>, capacity: u64) -> bool {
    forall|i: int|
        0 <= i < files.len() ==> frame_fits(
            rel_chars(root, (#[trigger] files[i]).path@),
            files[i].lines@.len() + 1,
            capacity,
        )
}

/// Every line fits a fresh container beside the largest frame its page could
/// carry. Line `l` of a file lands on a page numbered at most `l + 2`.
pub open spec fn lines_fit(files: Seq<SourceFile>, root: Option<Seq<char>>, capacity: u64) -> bool {
    forall|i: int, l: int|
        0 <= i < files.len() && 0 <= l < files[i].lines@.len() ==> byte_len(
            (#[trigger] files[i].lines@[l])@,
        ) + 1 + byte_len(header_chars(rel_chars(root, files[i].path@), (l + 2) as nat)) + byte_len(
            footer_chars(rel_chars(root, files[i].path@)),
        ) <= capacity
}

/// Container sequence numbers and names follow the position in the result
/// list: the j-th container is number j + 1 and carries the name rendered
/// from the base name and that number. Rerunning on identical inputs hence
/// reproduces the same names.
pub open spec fn containers_named(cs: Seq<Container>, base: Seq<char>) -> bool {
    forall|j: int|
        0 <= j < cs.len() ==> {
            &&& (#[trigger] cs[j]).sequence_number == j + 1
            &&& cs[j].name@ == chunk_name_chars(base, (j + 1) as nat)
        }
}

/// Every container's text fits the capacity.
pub open spec fn containers_capped(cs: Seq<Container>, capacity: u64) -> bool {
    forall|j: int| 0 <= j < cs.len() ==> byte_len(container_chars(#[trigger] cs[j])) <= capacity
}

/// Every page is attributed to an input file with index below `bound`, and
/// carries that file's rendered identifier.
pub open spec fn pages_tagged(
    aps: Seq<Page>,
    files: Seq<SourceFile>,
    root: Option<Seq<char>>,
    bound: int,
) -> bool {
    forall|j: int|
        0 <= j < aps.len() ==> {
            &&& 0 <= (#[trigger] aps[j]).source@ < bound
            &&& aps[j].file_path@ == rel_chars(root, files[aps[j].source@].path@)
        }
}

/// Pages appear in input-file order.
pub open spec fn pages_ordered(aps: Seq<Page>) -> bool {
    forall|j1: int, j2: int|
        0 <= j1 <= j2 < aps.len() ==> (#[trigger] aps[j1]).source@ <= (#[trigger] aps[j2]).source@
}

/// Page numbers run 1, 2, 3, ... along the given pages, with no gap and no
/// repeat.
pub open spec fn numbered(sel: Seq<Page>) -> bool {
    forall|k: int| 0 <= k < sel.len() ==> (#[trigger] sel[k]).page_number == k + 1
}

/// Container `q`'s host exists only because `q`, its first page, could not
/// have joined the previous container `prev`: the file's opening frame
/// (when `q` starts a file at page 1) or the line that opens `q` (after a
/// mid-file rollover, when `q`'s body starts with the line that did not fit)
/// would have pushed `prev` past the capacity.
pub open spec fn rollover_forced(prev: Container, q: Page, capacity: u64) -> bool {
    if q.page_number == 1 {
        byte_len(container_chars(prev)) + byte_len(header_chars(q.file_path@, 1)) + byte_len(
            footer_chars(q.file_path@),
        ) > capacity
    } else {
        q.lines@.len() >= 1 && byte_len(container_chars(prev)) + byte_len(q.lines@[0]@) + 1
            > capacity
    }
}

/// No container is opened early: every container after the first holds at
/// least one page, and its first page was forced out of its predecessor.
pub open spec fn packing_tight(cs: Seq<Container>, capacity: u64) -> bool {
    forall|j: int|
        1 <= j < cs.len() ==> (#[trigger] cs[j]).pages@.len() >= 1 && rollover_forced(
            cs[j - 1],
            cs[j].pages@[0],
            capacity,
        )
}

/// Within one container, pages come from strictly increasing file indices:
/// a container never holds two pages of the same file, since a page ends
/// inside a container only when the file ends there too.
pub open spec fn pages_distinct_files(cs: Seq<Container>) -> bool {
    forall|j: int, k1: int, k2: int|
        0 <= j < cs.len() && 0 <= k1 < k2 < cs[j].pages@.len() ==> (#[trigger] cs[j].pages@[k1]).source@
            < (#[trigger] cs[j].pages@[k2]).source@
}

/// File `i` is covered: it owns at least one page, their numbers are the
/// contiguous sequence starting at 1, and their bodies hold exactly the
/// file's lines, in order.
pub open spec fn file_covered(aps: Seq<Page>, files: Seq<SourceFile>, i: int) -> bool {
    let sel = pages_of_source(aps, i);
    &&& sel.len() >= 1
    &&& numbered(sel)
    &&& pages_lines(sel) == files[i].lines.deep_view()
}

/// Everything a successful run guarantees about its outcome: at least one
/// container, deterministic numbering and naming, every page attributed to
/// its file in input order, every file's lines covered exactly once with
/// contiguous page numbers, and the truncated files reported.
pub open spec fn split_ok(
    out: SplitOutcome,
    files: Seq<SourceFile>,
    root: Option<Seq<char>>,
    base: Seq<char>,
    capacity: u64,
) -> bool {
    let cs = out.containers@;
    let aps = all_pages(cs);
    &&& cs.len() >= 1
    &&& (files.len() == 0 ==> cs.len() == 1)
    &&& (files.len() > 0 ==> forall|j: int|
        0 <= j < cs.len() ==> (#[trigger] cs[j]).pages@.len() >= 1)
    &&& containers_named(cs, base)
    &&& packing_tight(cs, capacity)
    &&& pages_distinct_files(cs)
    &&& pages_tagged(aps, files, root, files.len() as int)
    &&& pages_ordered(aps)
    &&& (forall|i: int| 0 <= i < files.len() ==> file_covered(aps, files, i))
    &&& out.unreadable.deep_view() == truncated_paths(files, root)
}

/// What the fatal failure reports: the capacity, and a file and page number
/// that the run reached whose bare frame does not fit that capacity.
pub open spec fn split_err(
    e: SplitError,
    files: Seq<SourceFile>,
    root: Option<Seq<char>>,
    capacity: u64,
) -> bool {
    &&& e.capacity == capacity
    &&& e.page_number >= 1
    &&& !frame_fits(e.file_path@, e.page_number as nat, capacity)
    &&& exists|i: int|
        0 <= i < files.len() && e.file_path@ == rel_chars(root, (#[trigger] files[i]).path@)
            && e.page_number <= files[i].lines@.len() + 1
}

// While a page is open in a still-empty container, the fact that forced the
// container open is remembered against the sealed predecessor: the open
// page will become the container's first page when it closes.
spec fn open_page_pending(
    sealed: Seq<Container>,
    current: Seq<Page>,
    path: Seq<char>,
    page: u64,
    body: Seq<String>,
    capacity: u64,
) -> bool {
    (sealed.len() >= 1 && current.len() == 0) ==> (if page == 1 {
        byte_len(container_chars(sealed.last())) + byte_len(header_chars(path, 1)) + byte_len(
            footer_chars(path),
        ) > capacity
    } else {
        body.len() >= 1 && byte_len(container_chars(sealed.last())) + byte_len(body[0]@) + 1
            > capacity
    })
}

proof fn lemma_pages_of_source_push_other(aps: Seq<Page>, p: Page, k: int)
    requires
        p.source@ != k,
    ensures
        pages_of_source(aps.push(p), k) == pages_of_source(aps, k),
{
    assert(aps.push(p).drop_last() =~= aps);
}

proof fn lemma_pages_chars_push(ps: Seq<Page>, p: Page)
    ensures
        pages_chars(ps.push(p)) == pages_chars(ps) + page_chars(p),
{
    assert(ps.push(p).drop_last() =~= ps);
}

proof fn lemma_pages_lines_push(ps: Seq<Page>, p: Page)
    ensures
        pages_lines(ps.push(p)) == pages_lines(ps) + p.lines.deep_view(),
{
    assert(ps.push(p).drop_last() =~= ps);
}

proof fn lemma_body_chars_push(lines: Seq<String>, l: String)
    ensures
        body_chars(lines.push(l)) == body_chars(lines) + line_chars(l@),
{
    assert(lines.push(l).drop_last() =~= lines);
}

proof fn lemma_all_pages_push(cs: Seq<Container>, c: Container)
    ensures
        all_pages(cs.push(c)) == all_pages(cs) + c.pages@,
{
    assert(cs.push(c).drop_last() =~= cs);
}

proof fn lemma_truncated_paths_take_succ(files: Seq<SourceFile>, root: Option<Seq<char>>, i: int)
    requires
        0 <= i < files.len(),
    ensures
        truncated_paths(files.take(i + 1), root) == truncated_paths(files.take(i), root) + (
        if files[i].truncated {
            seq![rel_chars(root, files[i].path@)]
        } else {
            Seq::<Seq<char>>::empty()
        }),
{
    assert(files.take(i + 1).drop_last() =~= files.take(i));
    assert(files.take(i + 1).last() == files[i]);
}

proof fn lemma_unit_count_take_succ(files: Seq<SourceFile>, i: int)
    requires
        0 <= i < files.len(),
    ensures
        unit_count(files.take(i + 1)) == unit_count(files.take(i)) + 1 + files[i].lines@.len(),
{
    assert(files.take(i + 1).drop_last() =~= files.take(i));
    assert(files.take(i + 1).last() == files[i]);
}

// Closing a page appends it to the run of pages: the structural and
// coverage bookkeeping for one `push`.
proof fn lemma_page_closed(
    aps: Seq<Page>,
    closed: Page,
    files: Seq<SourceFile>,
    root: Option<Seq<char>>,
    bound: int,
)
    requires
        pages_tagged(aps, files, root, bound),
        pages_ordered(aps),
        forall|j: int| 0 <= j < aps.len() ==> (#[trigger] aps[j]).source@ <= closed.source@,
        0 <= closed.source@ < files.len(),
        closed.source@ < bound,
        closed.file_path@ == rel_chars(root, files[closed.source@].path@),
    ensures
        pages_tagged(aps.push(closed), files, root, bound),
        pages_ordered(aps.push(closed)),
        pages_of_source(aps.push(closed), closed.source@) == pages_of_source(
            aps,
            closed.source@,
        ).push(closed),
        forall|k: int|
            k != closed.source@ ==> #[trigger] pages_of_source(aps.push(closed), k)
                == pages_of_source(aps, k),
        pages_lines(pages_of_source(aps, closed.source@).push(closed)) == pages_lines(
            pages_of_source(aps, closed.source@),
        ) + closed.lines.deep_view(),
        forall|k: int|
            k != closed.source@ && file_covered(aps, files, k) ==> #[trigger] file_covered(
                aps.push(closed),
                files,
                k,
            ),
{
    assert(aps.push(closed).drop_last() =~= aps);
    assert forall|k: int|
        k != closed.source@ implies #[trigger] pages_of_source(aps.push(closed), k)
        == pages_of_source(aps, k) by {
        lemma_pages_of_source_push_other(aps, closed, k);
    }
    lemma_pages_lines_push(pages_of_source(aps, closed.source@), closed);
}

// Appending a page's text to a container: the byte accounting for one
// closed page.
proof fn lemma_pages_chars_close(c0: Seq<Page>, closed: Page)
    ensures
        byte_len(pages_chars(c0.push(closed))) == byte_len(pages_chars(c0)) + byte_len(
            header_chars(closed.file_path@, closed.page_number as nat),
        ) + byte_len(body_chars(closed.lines@)) + byte_len(footer_chars(closed.file_path@)),
{
    lemma_pages_chars_push(c0, closed);
    lemma_byte_len_concat(
        header_chars(closed.file_path@, closed.page_number as nat),
        body_chars(closed.lines@),
    );
    lemma_byte_len_concat(
        header_chars(closed.file_path@, closed.page_number as nat) + body_chars(closed.lines@),
        footer_chars(closed.file_path@),
    );
    lemma_byte_len_concat(pages_chars(c0), page_chars(closed));
}

// Sealing the current container extends the list's naming, non-emptiness
// and tight-packing facts by one entry.
proof fn lemma_sealed_extend(s0: Seq<Container>, full: Container, base: Seq<char>, cap: u64)
    requires
        containers_named(s0, base),
        packing_tight(s0, cap),
        pages_distinct_files(s0),
        forall|j: int| 0 <= j < s0.len() ==> (#[trigger] s0[j]).pages@.len() >= 1,
        forall|k1: int, k2: int|
            0 <= k1 < k2 < full.pages@.len() ==> (#[trigger] full.pages@[k1]).source@ < (
            #[trigger] full.pages@[k2]).source@,
        full.sequence_number == s0.len() + 1,
        full.name@ == chunk_name_chars(base, (s0.len() + 1) as nat),
        full.pages@.len() >= 1,
        s0.len() >= 1 ==> rollover_forced(s0.last(), full.pages@[0], cap),
    ensures
        containers_named(s0.push(full), base),
        packing_tight(s0.push(full), cap),
        pages_distinct_files(s0.push(full)),
        forall|j: int|
            0 <= j < s0.push(full).len() ==> (#[trigger] s0.push(full)[j]).pages@.len() >= 1,
        all_pages(s0.push(full)) == all_pages(s0) + full.pages@,
{
    lemma_all_pages_push(s0, full);
    assert forall|j: int| 1 <= j < s0.push(full).len() implies (#[trigger] s0.push(full)[j]).pages@.len()
        >= 1 && rollover_forced(s0.push(full)[j - 1], s0.push(full)[j].pages@[0], cap) by {
        if j == s0.len() {
            assert(s0.push(full)[j] == full);
            assert(s0.push(full)[j - 1] == s0.last());
        } else {
            assert(s0.push(full)[j] == s0[j]);
            assert(s0.push(full)[j - 1] == s0[j - 1]);
        }
    }
    assert forall|j: int, k1: int, k2: int|
        0 <= j < s0.push(full).len() && 0 <= k1 < k2 < s0.push(full)[j].pages@.len() implies (
    #[trigger] s0.push(full)[j].pages@[k1]).source@ < (#[trigger] s0.push(full)[j].pages@[k2]).source@ by {
        if j == s0.len() {
            assert(s0.push(full)[j] == full);
        } else {
            assert(s0.push(full)[j] == s0[j]);
        }
    }
}

// A sealed container that fits keeps the capacity bound over the list.
proof fn lemma_capped_extend(s0: Seq<Container>, full: Container, cap: u64)
    requires
        containers_capped(s0, cap),
        byte_len(container_chars(full)) <= cap,
    ensures
        containers_capped(s0.push(full), cap),
{
    assert forall|j: int| 0 <= j < s0.push(full).len() implies byte_len(
        container_chars(#[trigger] s0.push(full)[j]),
    ) <= cap by {
        if j < s0.len() {
            assert(s0.push(full)[j] == s0[j]);
        } else {
            assert(s0.push(full)[j] == full);
        }
    }
}

proof fn lemma_unit_count_take_le(files: Seq<SourceFile>, i: int)
    requires
        0 <= i <= files.len(),
    ensures
        unit_count(files.take(i)) <= unit_count(files),
    decreases files.len() - i,
{
    if i == files.len() {
        assert(files.take(i) =~= files);
    } else {
        lemma_unit_count_take_succ(files, i);
        lemma_unit_count_take_le(files, i + 1);
    }
}

impl Container {
    /// The exact text this container holds.
    pub fn render(&self) -> (s: String)
        ensures
            s@ == container_chars(*self),
    {
        let mut s = String::new();
        let mut k: usize = 0;
        proof {
            assert(self.pages@.take(0) =~= Seq::<Page>::empty());
        }
        while k < self.pages.len()
            invariant
                k <= self.pages@.len(),
                s@ == pages_chars(self.pages@.take(k as int)),
            decreases self.pages@.len() - k,
        {
            let page = &self.pages[k];
            let header = PageFormat::create_page_header(page.file_path.as_str(), page.page_number);
            s.append(header.as_str());
            let ghost mid0 = s@;
            let mut j: usize = 0;
            proof {
                assert(body_chars(page.lines@.take(0)) =~= Seq::<char>::empty());
                assert(s@ =~= mid0 + body_chars(page.lines@.take(0)));
            }
            while j < page.lines.len()
                invariant
                    j <= page.lines@.len(),
                    s@ == mid0 + body_chars(page.lines@.take(j as int)),
                decreases page.lines@.len() - j,
            {
                s.append(page.lines[j].as_str());
                s.append("\n");
                proof {
                    reveal_strlit("\n");
                    assert(page.lines@.take(j + 1).drop_last() =~= page.lines@.take(j as int));
                    assert(page.lines@.take(j + 1).last() == page.lines@[j as int]);
                    assert(line_chars(page.lines@[j as int]@) =~= page.lines@[j as int]@ + "\n"@);
                    assert(s@ =~= mid0 + body_chars(page.lines@.take(j + 1)));
                }
                j += 1;
            }
            let footer = PageFormat::create_page_footer(page.file_path.as_str());
            s.append(footer.as_str());
            proof {
                assert(page.lines@.take(page.lines@.len() as int) =~= page.lines@);
                assert(self.pages@.take(k + 1).drop_last() =~= self.pages@.take(k as int));
                assert(self.pages@.take(k + 1).last() == self.pages@[k as int]);
                assert(s@ =~= pages_chars(self.pages@.take(k + 1)));
            }
            k += 1;
        }
        proof {
            assert(self.pages@.take(self.pages@.len() as int) =~= self.pages@);
        }
        s
    }
}

/// The deterministic container file name `{output_name}_{sequence_number}.txt`.
pub fn chunk_file_name(output_name: &str, sequence_number: u64) -> (s: String)
    ensures
        s@ == chunk_name_chars(output_name@, sequence_number as nat),
{
    let mut s = String::from_str(output_name);
    s.append("_");
    let num = u64_to_string(sequence_number);
    s.append(num.as_str());
    s.append(".txt");
    proof {
        assert(s@ =~= chunk_name_chars(output_name@, sequence_number as nat));
    }
    s
}

/// Splits the given source files' lines into framed pages spread over
/// containers that the capacity bounds, in input order.
///
/// The caller reads the files beforehand and hands each one's lines over as
/// values (a file that cannot be opened at all is simply not handed in; one
/// whose content stops being readable text partway is handed in with the
/// lines read so far and its `truncated` flag set, and comes back named in
/// the outcome's warnings). Writing the containers out is likewise the
/// caller's business: container `c` holds exactly the text
/// `c.render()` under the name `c.name`.
///
/// The run fails, producing no containers, exactly when it reaches a page
/// whose bare frame alone exceeds the capacity; it always succeeds when
/// every file's frame fits even at the highest page number the run could
/// reach. Containers stay within the capacity whenever every line fits a
/// fresh container beside its page's frame (`lines_fit`); a single longer
/// line is carried anyway, in a container of its own page, exceeding the
/// capacity as unavoidably as the line itself does.
///
/// The unit bound in the requires is a machine limit on the page and
/// container counters: a run cannot handle `u64::MAX` framing units.
#[verifier::rlimit(100)]
#[verifier::spinoff_prover]
pub fn split_files_into_chunks(
    target_files: &Vec<SourceFile>,
    target_files_root_path: Option<&str>,
    max_output_file_size: u64,
    output_name: &str,
) -> (r: Result<SplitOutcome, SplitError>)
    requires
        unit_count(target_files@) < u64::MAX,
    ensures
        match r {
            Ok(out) => split_ok(
                out,
                target_files@,
                root_view(target_files_root_path),
                output_name@,
                max_output_file_size,
            ),
            Err(e) => split_err(
                e,
                target_files@,
                root_view(target_files_root_path),
                max_output_file_size,
            ),
        },
        r matches Ok(out) ==> (lines_fit(
            target_files@,
            root_view(target_files_root_path),
            max_output_file_size,
        ) ==> containers_capped(out.containers@, max_output_file_size)),
        frames_fit(target_files@, root_view(target_files_root_path), max_output_file_size)
            ==> r is Ok,
{
    let ghost fv = target_files@;
    let ghost rv = root_view(target_files_root_path);
    let ghost basev = output_name@;
    let cap: u64 = max_output_file_size;

    let mut sealed: Vec<Container> = Vec::new();
    let mut current_pages: Vec<Page> = Vec::new();
    let mut output_file_counter: u64 = 1;
    let mut current_name: String = chunk_file_name(output_name, 1);
    let mut current_size: u128 = 0;
    let mut unreadable: Vec<String> = Vec::new();
    let mut i: usize = 0;
    proof {
        assert(fv.take(0) =~= Seq::<SourceFile>::empty());
        assert(all_pages(sealed@) + current_pages@ =~= Seq::<Page>::empty());
        assert(unreadable.deep_view() =~~= truncated_paths(fv.take(0), rv));
        assert(byte_len(Seq::<char>::empty()) == 0);
    }
    while i < target_files.len()
        invariant
            i <= fv.len(),
            unit_count(fv) < u64::MAX,
            cap == max_output_file_size,
            fv == target_files@,
            rv == root_view(target_files_root_path),
            basev == output_name@,
            output_file_counter as nat == sealed@.len() + 1,
            output_file_counter as nat <= 1 + unit_count(fv.take(i as int)),
            current_name@ == chunk_name_chars(basev, output_file_counter as nat),
            containers_named(sealed@, basev),
            lines_fit(fv, rv, cap) ==> containers_capped(sealed@, cap),
            current_size as nat == byte_len(pages_chars(current_pages@)),
            lines_fit(fv, rv, cap) ==> current_size <= cap,
            current_size as nat <= 3 * (u64::MAX as nat) + 2,
            forall|j: int| 0 <= j < sealed@.len() ==> (#[trigger] sealed@[j]).pages@.len() >= 1,
            packing_tight(sealed@, cap),
            pages_distinct_files(sealed@),
            forall|k1: int, k2: int|
                0 <= k1 < k2 < current_pages@.len() ==> (#[trigger] current_pages@[k1]).source@ < (
                #[trigger] current_pages@[k2]).source@,
            forall|k: int|
                0 <= k < current_pages@.len() ==> (#[trigger] current_pages@[k]).source@ < i,
            i > 0 ==> current_pages@.len() >= 1,
            sealed@.len() >= 1 ==> current_pages@.len() >= 1 && rollover_forced(
                sealed@.last(),
                current_pages@[0],
                cap,
            ),
            pages_tagged(all_pages(sealed@) + current_pages@, fv, rv, i as int),
            pages_ordered(all_pages(sealed@) + current_pages@),
            forall|k: int| 0 <= k < i ==> file_covered(all_pages(sealed@) + current_pages@, fv, k),
            forall|k: int|
                i <= k ==> pages_of_source(all_pages(sealed@) + current_pages@, k) == Seq::<
                    Page,
                >::empty(),
            unreadable.deep_view() == truncated_paths(fv.take(i as int), rv),
        decreases fv.len() - i,
    {
        let f = &target_files[i];
        let ghost rp = rel_chars(rv, fv[i as int].path@);
        let ghost fl = fv[i as int].lines.deep_view();
        let ghost lcount = fv[i as int].lines@.len();
        proof {
            lemma_unit_count_take_succ(fv, i as int);
            lemma_unit_count_take_le(fv, i as int + 1);
        }
        let mut page_format = PageFormat::new(f.path.clone(), target_files_root_path);
        proof {
            assert(page_format.file_path@ == rp);
        }
        match check_max_output_file_size(&page_format, cap) {
            Err(e) => {
                proof {
                    lemma_header_size_monotone(rp, 1, lcount + 1);
                    assert(!frame_fits(
                        rel_chars(rv, fv[i as int].path@),
                        fv[i as int].lines@.len() + 1,
                        cap,
                    ));
                }
                return Err(e);
            },
            Ok(()) => {},
        }
        if current_size + (page_format.header_size as u128) + (page_format.footer_size as u128)
            > (cap as u128) {
            let ghost s0 = sealed@;
            let ghost c0 = current_pages@;
            proof {
                assert(c0.len() >= 1) by {
                    if c0.len() == 0 {
                        assert(pages_chars(c0) =~= Seq::<char>::empty());
                        assert(byte_len(Seq::<char>::empty()) == 0);
                    }
                }
            }
            let full = Container {
                sequence_number: output_file_counter,
                name: current_name,
                pages: current_pages,
            };
            sealed.push(full);
            current_pages = Vec::new();
            output_file_counter = output_file_counter + 1;
            current_name = chunk_file_name(output_name, output_file_counter);
            current_size = 0;
            proof {
                assert(sealed@ =~= s0.push(full));
                lemma_sealed_extend(s0, full, basev, cap);
                if lines_fit(fv, rv, cap) {
                    lemma_capped_extend(s0, full, cap);
                }
                assert(all_pages(sealed@) + current_pages@ =~= all_pages(s0) + c0);
                assert(pages_chars(current_pages@) =~= Seq::<char>::empty());
                // the frame that did not fit is remembered against the
                // sealed container for the page about to open
                assert(byte_len(container_chars(full)) + byte_len(header_chars(rp, 1)) + byte_len(
                    footer_chars(rp),
                ) > cap);
            }
        }
        current_size = current_size + (page_format.header_size as u128);
        let mut current_lines: Vec<String> = Vec::new();
        proof {
            assert(body_chars(current_lines@) =~= Seq::<char>::empty());
            assert(byte_len(Seq::<char>::empty()) == 0);
            assert(fl.take(0) =~= Seq::<Seq<char>>::empty());
            assert(pages_of_source(all_pages(sealed@) + current_pages@, i as int) == Seq::<
                Page,
            >::empty());
            assert(pages_lines(pages_of_source(all_pages(sealed@) + current_pages@, i as int))
                + current_lines.deep_view() =~~= fl.take(0));
        }
        let mut j: usize = 0;
        while j < f.lines.len()
            invariant
                j <= lcount,
                unit_count(fv) < u64::MAX,
                cap == max_output_file_size,
                fv == target_files@,
                rv == root_view(target_files_root_path),
                basev == output_name@,
                i < fv.len(),
                lcount == fv[i as int].lines@.len(),
                fl == fv[i as int].lines.deep_view(),
                rp == rel_chars(rv, fv[i as int].path@),
                f.lines@ == fv[i as int].lines@,
                page_format.wf(),
                page_format.file_path@ == rp,
                1 <= page_format.page_nubmer,
                page_format.page_nubmer as nat <= 1 + j as nat,
                output_file_counter as nat == sealed@.len() + 1,
                output_file_counter as nat <= 1 + unit_count(fv.take(i as int)) + 1 + j,
                current_name@ == chunk_name_chars(basev, output_file_counter as nat),
                containers_named(sealed@, basev),
                lines_fit(fv, rv, cap) ==> containers_capped(sealed@, cap),
                current_size as nat == byte_len(pages_chars(current_pages@)) + byte_len(
                    header_chars(rp, page_format.page_nubmer as nat),
                ) + byte_len(body_chars(current_lines@)),
                lines_fit(fv, rv, cap) ==> current_size + page_format.footer_size as u128 <= cap
                    as u128,
                current_size as nat <= 2 * (u64::MAX as nat) + 1,
                forall|j2: int| 0 <= j2 < sealed@.len() ==> (#[trigger] sealed@[j2]).pages@.len()
                    >= 1,
                packing_tight(sealed@, cap),
                pages_distinct_files(sealed@),
                forall|k1: int, k2: int|
                    0 <= k1 < k2 < current_pages@.len() ==> (#[trigger] current_pages@[k1]).source@
                        < (#[trigger] current_pages@[k2]).source@,
                forall|k: int|
                    0 <= k < current_pages@.len() ==> (#[trigger] current_pages@[k]).source@ < i,
                (sealed@.len() >= 1 && current_pages@.len() >= 1) ==> rollover_forced(
                    sealed@.last(),
                    current_pages@[0],
                    cap,
                ),
                open_page_pending(
                    sealed@,
                    current_pages@,
                    rp,
                    page_format.page_nubmer,
                    current_lines@,
                    cap,
                ),
                pages_tagged(all_pages(sealed@) + current_pages@, fv, rv, i as int + 1),
                pages_ordered(all_pages(sealed@) + current_pages@),
                forall|k: int|
                    0 <= k < i ==> file_covered(all_pages(sealed@) + current_pages@, fv, k),
                forall|k: int|
                    i < k ==> pages_of_source(all_pages(sealed@) + current_pages@, k) == Seq::<
                        Page,
                    >::empty(),
                pages_of_source(all_pages(sealed@) + current_pages@, i as int).len()
                    == page_format.page_nubmer as int - 1,
                numbered(pages_of_source(all_pages(sealed@) + current_pages@, i as int)),
                pages_lines(pages_of_source(all_pages(sealed@) + current_pages@, i as int))
                    + current_lines.deep_view() == fl.take(j as int),
                unreadable.deep_view() == truncated_paths(fv.take(i as int), rv),
            decreases lcount - j,
        {
            let line = &f.lines[j];
            let line_bytes = line.as_str().as_bytes().len();
            let ghost lv = fv[i as int].lines@[j as int]@;
            proof {
                assert(line@ == lv);
                assert(fl[j as int] == lv);
            }
            if current_size + (line_bytes as u128) + 1 + (page_format.footer_size as u128) > (cap
                as u128) {
                let ghost s0 = sealed@;
                let ghost c0 = current_pages@;
                let ghost b0 = current_lines@;
                let ghost p0 = page_format.page_nubmer;
                let ghost aps0 = all_pages(s0) + c0;
                let ghost sel0 = pages_of_source(aps0, i as int);
                proof {
                    lemma_unit_count_take_succ(fv, i as int);
                    lemma_unit_count_take_le(fv, i as int + 1);
                }
                let closed = Page {
                    file_path: page_format.file_path.clone(),
                    page_number: page_format.page_nubmer,
                    lines: current_lines,
                    source: Ghost(i as int),
                };
                current_pages.push(closed);
                current_size = current_size + (page_format.footer_size as u128);
                current_lines = Vec::new();
                proof {
                    assert(current_pages@ =~= c0.push(closed));
                    assert(all_pages(s0) + c0.push(closed) =~= aps0.push(closed));
                    lemma_page_closed(aps0, closed, fv, rv, i as int + 1);
                    lemma_pages_chars_close(c0, closed);
                    if c0.len() == 0 && s0.len() >= 1 {
                        assert(rollover_forced(s0.last(), closed, cap));
                    }
                }
                let full = Container {
                    sequence_number: output_file_counter,
                    name: current_name,
                    pages: current_pages,
                };
                sealed.push(full);
                current_pages = Vec::new();
                output_file_counter = output_file_counter + 1;
                current_name = chunk_file_name(output_name, output_file_counter);
                current_size = 0;
                proof {
                    assert(sealed@ =~= s0.push(full));
                    assert(full.pages@ == c0.push(closed));
                    if s0.len() >= 1 {
                        if c0.len() >= 1 {
                            assert(full.pages@[0] == c0[0]);
                        } else {
                            assert(full.pages@[0] == closed);
                        }
                    }
                    assert forall|k1: int, k2: int|
                        0 <= k1 < k2 < full.pages@.len() implies (#[trigger] full.pages@[k1]).source@
                        < (#[trigger] full.pages@[k2]).source@ by {
                        if k2 == full.pages@.len() - 1 {
                            assert(full.pages@[k2] == closed);
                            assert(full.pages@[k1] == c0[k1]);
                        } else {
                            assert(full.pages@[k1] == c0[k1]);
                            assert(full.pages@[k2] == c0[k2]);
                        }
                    }
                    lemma_sealed_extend(s0, full, basev, cap);
                    if lines_fit(fv, rv, cap) {
                        lemma_capped_extend(s0, full, cap);
                    }
                    assert(all_pages(sealed@) + current_pages@ =~= aps0.push(closed));
                    assert(pages_chars(current_pages@) =~= Seq::<char>::empty());
                    // the line that did not fit is remembered against the
                    // sealed container: it opens the next page
                    assert(byte_len(container_chars(full)) + byte_len(lv) + 1 > cap);
                }
                page_format.increment_page_number();
                match check_max_output_file_size(&page_format, cap) {
                    Err(e) => {
                        proof {
                            lemma_header_size_monotone(rp, (p0 + 1) as nat, lcount + 1);
                            assert(!frame_fits(
                                rel_chars(rv, fv[i as int].path@),
                                fv[i as int].lines@.len() + 1,
                                cap,
                            ));
                        }
                        return Err(e);
                    },
                    Ok(()) => {},
                }
                current_size = page_format.header_size as u128;
                proof {
                    assert(body_chars(current_lines@) =~= Seq::<char>::empty());
                    assert(byte_len(Seq::<char>::empty()) == 0);
                    assert(current_lines.deep_view() =~~= Seq::<Seq<char>>::empty());
                    assert(pages_lines(pages_of_source(
                        all_pages(sealed@) + current_pages@,
                        i as int,
                    )) + current_lines.deep_view() =~~= fl.take(j as int));
                    // under `lines_fit`, this line still leaves room for the
                    // footer in the fresh container
                    if lines_fit(fv, rv, cap) {
                        lemma_header_size_monotone(
                            rp,
                            page_format.page_nubmer as nat,
                            (j + 2) as nat,
                        );
                    }
                }
            }
            let ghost d0 = current_lines.deep_view();
            let ghost b1 = current_lines@;
            let ghost sel_pre = pages_of_source(all_pages(sealed@) + current_pages@, i as int);
            current_lines.push(line.clone());
            current_size = current_size + (line_bytes as u128) + 1;
            proof {
                lemma_body_chars_push(b1, current_lines@.last());
                assert(line_chars(lv) =~= lv + seq!['\n']);
                lemma_byte_len_concat(body_chars(b1), line_chars(lv));
                lemma_byte_len_concat(lv, seq!['\n']);
                assert(is_ascii_chars(seq!['\n']));
                lemma_byte_len_ascii(seq!['\n']);
                assert(current_lines.deep_view() =~~= d0.push(lv));
                assert(pages_lines(sel_pre) + d0.push(lv) =~~= (pages_lines(sel_pre) + d0).push(
                    lv,
                ));
                assert(fl.take(j + 1) =~~= fl.take(j as int).push(lv));
            }
            j += 1;
        }
        let ghost s2 = sealed@;
        let ghost c2 = current_pages@;
        let ghost b2 = current_lines@;
        let ghost p2 = page_format.page_nubmer;
        let ghost aps2 = all_pages(s2) + c2;
        let ghost sel2 = pages_of_source(aps2, i as int);
        let ghost u2 = unreadable.deep_view();
        let closed = Page {
            file_path: page_format.file_path.clone(),
            page_number: page_format.page_nubmer,
            lines: current_lines,
            source: Ghost(i as int),
        };
        current_pages.push(closed);
        current_size = current_size + (page_format.footer_size as u128);
        if f.truncated {
            unreadable.push(page_format.file_path.clone());
        }
        proof {
            assert(closed.lines@ == b2);
            assert(current_pages@ =~= c2.push(closed));
            assert(all_pages(s2) + c2.push(closed) =~= aps2.push(closed));
            lemma_page_closed(aps2, closed, fv, rv, i as int + 1);
            lemma_pages_chars_close(c2, closed);
            assert(fl.take(lcount as int) =~~= fl);
            assert(file_covered(aps2.push(closed), fv, i as int));
            if s2.len() >= 1 {
                if c2.len() == 0 {
                    assert(rollover_forced(s2.last(), closed, cap));
                    assert(current_pages@[0] == closed);
                } else {
                    assert(current_pages@[0] == c2[0]);
                }
            }
            assert forall|k1: int, k2: int|
                0 <= k1 < k2 < current_pages@.len() implies (#[trigger] current_pages@[k1]).source@
                < (#[trigger] current_pages@[k2]).source@ by {
                if k2 == current_pages@.len() - 1 {
                    assert(current_pages@[k2] == closed);
                    assert(current_pages@[k1] == c2[k1]);
                } else {
                    assert(current_pages@[k1] == c2[k1]);
                    assert(current_pages@[k2] == c2[k2]);
                }
            }
            lemma_truncated_paths_take_succ(fv, rv, i as int);
            if fv[i as int].truncated {
                assert(unreadable.deep_view() =~~= u2.push(rel_chars(rv, fv[i as int].path@)));
                assert(u2.push(rel_chars(rv, fv[i as int].path@)) =~~= u2 + seq![
                    rel_chars(rv, fv[i as int].path@),
                ]);
            }
        }
        i += 1;
    }
    let ghost sfin = sealed@;
    let ghost cfin = current_pages@;
    let full = Container {
        sequence_number: output_file_counter,
        name: current_name,
        pages: current_pages,
    };
    sealed.push(full);
    proof {
        assert(sealed@ =~= sfin.push(full));
        if cfin.len() >= 1 {
            lemma_sealed_extend(sfin, full, basev, cap);
        } else {
            assert(sfin.len() == 0);
            lemma_all_pages_push(sfin, full);
        }
        if lines_fit(fv, rv, cap) {
            lemma_capped_extend(sfin, full, cap);
        }
        assert(all_pages(sealed@) =~= all_pages(sfin) + cfin);
        assert(fv.take(fv.len() as int) =~= fv);
    }
    Ok(SplitOutcome { containers: sealed, unreadable })
}

/// Rejects a page format whose bare frame is larger than the container
/// capacity: no body line could ever join it, so the run cannot proceed.
pub fn check_max_output_file_size(page_format: &PageFormat, max_output_file_size: u64) -> (r:
    Result<(), SplitError>)
    requires
        page_format.wf(),
    ensures
        r is Ok <==> frame_fits(
            page_format.file_path@,
            page_format.page_nubmer as nat,
            max_output_file_size,
        ),
        r matches Err(e) ==> e.file_path@ == page_format.file_path@ && e.page_number
            == page_format.page_nubmer && e.capacity == max_output_file_size,
{
    if (page_format.header_size as u128) + (page_format.footer_size as u128) > (
    max_output_file_size as u128) {
        Err(
            SplitError {
                file_path: page_format.file_path.clone(),
                page_number: page_format.page_nubmer,
                capacity: max_output_file_size,
            },
        )
    } else {
        Ok(())
    }
}

} // verus!
