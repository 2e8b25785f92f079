//! The loader for executable images in the 64-bit executable-and-linkable
//! format: it reads the header and the program headers, gives every
//! loadable segment frames and a mapping in user space, and says which bytes
//! go into those frames.

use vstd::prelude::*;

use crate::arch::x86_64::mm::page_table::{
    at_most_taken, backs, lemma_run_left, lemma_run_taken, lemma_taken_twice, tables_for, touches,
    MapError, PageTable,
};
use crate::arch::x86_64::mm::table_memory::TableMemory;
use crate::mm::definitions::{
    is_free_run, lemma_still_returned, returned_or_refused, FrameAllocator, FrameRegion,
    MappingRegion, Page, PageFlags,
};
use crate::mm::definitions::{long_run, no_free_run};

verus! {

/// The size of the file header.
pub const ELF_HEADER_SIZE: usize = 64;

/// The size of one program header.
pub const PROGRAM_HEADER_SIZE: usize = 56;

/// The type of a program header that asks for a segment to be loaded.
pub const PT_LOAD: u32 = 1;

/// The segment may be executed.
pub const PF_EXECUTABLE: u32 = 1;

/// The segment may be written.
pub const PF_WRITABLE: u32 = 2;

/// The segment may be read.
pub const PF_READABLE: u32 = 4;

/// The first address above user space.
pub const USER_SPACE_END: u64 = 0x8000_0000_0000;

/// Why a read failed.
#[derive(Debug, Clone, Copy, PartialEq, Eq, Structural)]
pub enum ReadError {
    OutOfBound,
}

/// A source of bytes that can be read at any offset.
pub trait Readable {
    /// All the bytes of the source.
    spec fn contents(&self) -> Seq<u8>;

    /// Whether the source gives the `size` bytes from `offset` on. It gives
    /// none that it does not hold; which of the others it gives is for the
    /// implementation to say.
    spec fn gives(&self, offset: int, size: int) -> bool;

    /// The `size` bytes from `offset` on, exactly where the source gives
    /// them.
    fn read(&self, offset: usize, size: usize) -> (r: Result<Vec<u8>, ReadError>)
        ensures
            r is Ok <==> self.gives(offset as int, size as int),
            r matches Ok(v) ==> offset + size <= self.contents().len() && v@
                == self.contents().subrange(offset as int, offset + size),
    ;
}

/// An image that lies in memory.
pub struct MemoryReader {
    data: Vec<u8>,
}

impl MemoryReader {
    pub fn new(data: Vec<u8>) -> (r: Self)
        ensures
            r.contents() == data@,
    {
        Self { data }
    }
}

impl Readable for MemoryReader {
    closed spec fn contents(&self) -> Seq<u8> {
        self.data@
    }

    /// The image gives the bytes that end before its last byte.
    open spec fn gives(&self, offset: int, size: int) -> bool {
        offset + size < self.contents().len()
    }

    fn read(&self, offset: usize, size: usize) -> (r: Result<Vec<u8>, ReadError>) {
        let len = self.data.len();
        if size >= len || offset >= len - size {
            return Err(ReadError::OutOfBound);
        }
        let mut out: Vec<u8> = Vec::new();
        let mut i: usize = 0;
        while i < size
            invariant
                i <= size,
                len == self.data@.len(),
                offset + size < self.data@.len(),
                out@ == self.data@.subrange(offset as int, offset + i),
            decreases size - i,
        {
            out.push(self.data[offset + i]);
            i += 1;
            assert(out@ =~= self.data@.subrange(offset as int, offset + i));
        }
        Ok(out)
    }
}

/// An image in memory gives exactly the bytes that end before its last
/// byte. So an image of no more bytes than the file header has is never
/// read.
pub proof fn law_memory_reads(reader: &MemoryReader, offset: int, size: int)
    ensures
        reader.gives(offset, size) <==> offset + size < reader.contents().len(),
        reader.contents().len() <= ELF_HEADER_SIZE ==> file_fault(reader) == Some(ElfError::Read),
{
}

/// The 16-bit number whose bytes, lowest first, stand at `at` in `b`.
pub open spec fn le16(b: Seq<u8>, at: int) -> int {
    b[at] + 0x100 * b[at + 1]
}

/// The 32-bit number whose bytes, lowest first, stand at `at` in `b`.
pub open spec fn le32(b: Seq<u8>, at: int) -> int {
    le16(b, at) + 0x1_0000 * le16(b, at + 2)
}

/// The 64-bit number whose bytes, lowest first, stand at `at` in `b`.
pub open spec fn le64(b: Seq<u8>, at: int) -> int {
    le32(b, at) + 0x1_0000_0000 * le32(b, at + 4)
}

fn read_le16(b: &Vec<u8>, at: usize) -> (r: u16)
    requires
        at + 2 <= b@.len(),
    ensures
        r == le16(b@, at as int),
{
    let n = b.len();
    assert(at + 2 <= n);
    (b[at] as u16) + 0x100 * (b[at + 1] as u16)
}

fn read_le32(b: &Vec<u8>, at: usize) -> (r: u32)
    requires
        at + 4 <= b@.len(),
    ensures
        r == le32(b@, at as int),
{
    let n = b.len();
    assert(at + 4 <= n);
    (read_le16(b, at) as u32) + 0x1_0000 * (read_le16(b, at + 2) as u32)
}

fn read_le64(b: &Vec<u8>, at: usize) -> (r: u64)
    requires
        at + 8 <= b@.len(),
    ensures
        r == le64(b@, at as int),
{
    let n = b.len();
    assert(at + 8 <= n);
    (read_le32(b, at) as u64) + 0x1_0000_0000 * (read_le32(b, at + 4) as u64)
}

/// What the loader reads of the file header.
#[derive(Debug, Clone, Copy, PartialEq, Eq, Structural)]
pub struct ElfHeader {
    /// The address at which the program starts.
    pub entry: u64,
    /// The offset of the first program header in the file.
    pub phoff: u64,
    /// The distance from one program header to the next.
    pub phentsize: u16,
    /// The number of program headers.
    pub phnum: u16,
}

impl ElfHeader {
    /// The header that the 64 bytes `b` encode.
    pub open spec fn decode(b: Seq<u8>) -> ElfHeader {
        ElfHeader {
            entry: le64(b, 24) as u64,
            phoff: le64(b, 32) as u64,
            phentsize: le16(b, 54) as u16,
            phnum: le16(b, 56) as u16,
        }
    }

    pub fn parse(b: &Vec<u8>) -> (r: Self)
        requires
            b@.len() == ELF_HEADER_SIZE,
        ensures
            r == Self::decode(b@),
    {
        Self {
            entry: read_le64(b, 24),
            phoff: read_le64(b, 32),
            phentsize: read_le16(b, 54),
            phnum: read_le16(b, 56),
        }
    }
}

/// What the loader reads of a program header.
#[derive(Debug, Clone, Copy, PartialEq, Eq, Structural)]
pub struct ProgramHeader {
    pub tybe: u32,
    pub flags: u32,
    pub offset: u64,
    pub vaddr: u64,
    pub filesz: u64,
    pub memsz: u64,
}

impl ProgramHeader {
    /// The program header that the 56 bytes `b` encode.
    pub open spec fn decode(b: Seq<u8>) -> ProgramHeader {
        ProgramHeader {
            tybe: le32(b, 0) as u32,
            flags: le32(b, 4) as u32,
            offset: le64(b, 8) as u64,
            vaddr: le64(b, 16) as u64,
            filesz: le64(b, 32) as u64,
            memsz: le64(b, 40) as u64,
        }
    }

    pub fn parse(b: &Vec<u8>) -> (r: Self)
        requires
            b@.len() == PROGRAM_HEADER_SIZE,
        ensures
            r == Self::decode(b@),
    {
        Self {
            tybe: read_le32(b, 0),
            flags: read_le32(b, 4),
            offset: read_le64(b, 8),
            vaddr: read_le64(b, 16),
            filesz: read_le64(b, 32),
            memsz: read_le64(b, 40),
        }
    }

    /// Whether the header asks for a segment of at least one byte to be
    /// loaded.
    pub open spec fn loads(self) -> bool {
        self.tybe == PT_LOAD && self.memsz > 0
    }

    /// Whether the segment can be loaded: its file part is no longer than
    /// the segment, and the segment lies in user space.
    pub open spec fn sound(self) -> bool {
        self.filesz <= self.memsz && self.vaddr + self.memsz <= USER_SPACE_END
    }

    /// The offset of the segment's first byte in its first page.
    pub open spec fn page_offset(self) -> int {
        self.vaddr as int % 4096
    }

    /// The first page of the segment.
    pub open spec fn first_page(self) -> int {
        self.vaddr as int / 4096
    }

    /// The number of pages that the segment touches.
    pub open spec fn pages(self) -> int {
        (self.page_offset() + self.memsz + 4095) / 4096
    }

    /// The permissions of the segment's pages: reachable from user mode,
    /// executable and writable as the header's flags say.
    pub open spec fn page_flags(self) -> PageFlags {
        PageFlags {
            writable: (self.flags / 2) % 2 == 1,
            usermode: true,
            executable: self.flags % 2 == 1,
        }
    }

    pub fn get_page_flags(&self) -> (r: PageFlags)
        ensures
            r == self.page_flags(),
    {
        let mut flags = PageFlags::usermode();
        if self.flags % 2 == 1 {
            flags.toggle(PageFlags::executable());
        }
        if (self.flags / 2) % 2 == 1 {
            flags.toggle(PageFlags::writable());
        }
        flags
    }
}

/// A segment that has frames and a mapping, and the bytes that belong into
/// its frames.
pub struct LoadedSegment {
    /// The frames of the segment, mapped at its pages in order.
    pub frames: FrameRegion,
    /// The first page of the segment.
    pub virt_begin: Page,
    /// The permissions of the mapping.
    pub flags: PageFlags,
    /// The offset in the first frame at which `data` begins.
    pub page_offset: u64,
    /// The bytes of the segment that come from the file.
    pub data: Vec<u8>,
    /// The size of the segment in memory; what lies beyond `data` is zero.
    pub memsz: u64,
}

impl LoadedSegment {
    /// The mapping of the segment.
    pub open spec fn region(self) -> MappingRegion {
        MappingRegion {
            phys_begin: self.frames.begin,
            virt_begin: self.virt_begin,
            num: self.frames.num,
        }
    }

    /// Whether the segment is what the program header `ph` of the file
    /// `contents` asks for.
    pub open spec fn loads(self, ph: ProgramHeader, contents: Seq<u8>) -> bool {
        &&& self.frames.num == ph.pages()
        &&& self.virt_begin@ == ph.first_page()
        &&& self.flags == ph.page_flags()
        &&& self.page_offset == ph.page_offset()
        &&& self.memsz == ph.memsz
        &&& ph.offset + ph.filesz <= contents.len()
        &&& self.data@ == contents.subrange(ph.offset as int, ph.offset + ph.filesz)
    }

    pub fn get_region(&self) -> (r: MappingRegion)
        ensures
            r == self.region(),
    {
        MappingRegion {
            phys_begin: self.frames.begin,
            virt_begin: self.virt_begin,
            num: self.frames.num,
        }
    }
}

/// Why an image was not loaded.
#[derive(Debug, Clone, Copy, PartialEq, Eq, Structural)]
pub enum ElfError {
    /// The source did not give the header, a program header or a segment's
    /// bytes, or a program header lies at an offset that is no offset of any
    /// source.
    Read,
    /// A segment is shorter than its file part or leaves user space.
    BadSegment,
    /// No frames for a segment.
    OutOfMemory,
    /// A segment could not be mapped.
    Unmappable(MapError),
}

/// The file offset of program header `idx`, as the header `h` gives it.
pub open spec fn program_header_offset(h: ElfHeader, idx: int) -> int {
    h.phoff + idx * h.phentsize
}

/// The program header `idx` of the file `contents`.
pub open spec fn program_header(contents: Seq<u8>, idx: int) -> ProgramHeader {
    let h = ElfHeader::decode(contents.subrange(0, ELF_HEADER_SIZE as int));
    let at = program_header_offset(h, idx);
    ProgramHeader::decode(contents.subrange(at, at + PROGRAM_HEADER_SIZE))
}

/// The program headers among the first `n` of the file `contents` that ask
/// for a segment to be loaded, in the order of the file.
pub open spec fn load_headers(contents: Seq<u8>, n: int) -> Seq<ProgramHeader>
    decreases n,
{
    if n <= 0 {
        Seq::empty()
    } else {
        let before = load_headers(contents, n - 1);
        let ph = program_header(contents, n - 1);
        if ph.loads() {
            before.push(ph)
        } else {
            before
        }
    }
}

/// Whether a program header of the file `contents` asks for a segment that
/// cannot be loaded.
pub open spec fn has_unsound_segment(contents: Seq<u8>) -> bool {
    exists|idx: int|
        0 <= idx < ElfHeader::decode(contents.subrange(0, ELF_HEADER_SIZE as int)).phnum && (
        #[trigger] program_header(contents, idx)).loads() && !program_header(
            contents,
            idx,
        ).sound()
}

/// Whether `reader` refuses the bytes that the file part of the segment of
/// `ph` lies in, or they lie where no source has bytes.
pub open spec fn segment_unread<R: Readable>(reader: &R, ph: ProgramHeader) -> bool {
    ph.offset > usize::MAX || ph.filesz > usize::MAX || !reader.gives(
        ph.offset as int,
        ph.filesz as int,
    )
}

/// What is wrong with program header `idx` of the file that `reader`
/// holds, as far as the file alone decides it: the header cannot be read;
/// or it asks for a segment that is not sound; or the bytes of the segment
/// cannot be read.
pub open spec fn header_fault<R: Readable>(reader: &R, idx: int) -> Option<ElfError> {
    let contents = reader.contents();
    let h = ElfHeader::decode(contents.subrange(0, ELF_HEADER_SIZE as int));
    let at = program_header_offset(h, idx);
    let ph = program_header(contents, idx);
    if at > usize::MAX || !reader.gives(at, PROGRAM_HEADER_SIZE as int) {
        Some(ElfError::Read)
    } else if !ph.loads() {
        None
    } else if !ph.sound() {
        Some(ElfError::BadSegment)
    } else if segment_unread(reader, ph) {
        Some(ElfError::Read)
    } else {
        None
    }
}

/// The first thing wrong among the first `n` program headers of the file
/// that `reader` holds, in the order of the file.
pub open spec fn first_fault<R: Readable>(reader: &R, n: int) -> Option<ElfError>
    decreases n,
{
    if n <= 0 {
        None
    } else {
        match first_fault(reader, n - 1) {
            Some(e) => Some(e),
            None => header_fault(reader, n - 1),
        }
    }
}

/// What is wrong with the file that `reader` holds, as far as the file
/// alone decides it: `reader` refuses the file header, or else the first
/// thing wrong among the program headers.
pub open spec fn file_fault<R: Readable>(reader: &R) -> Option<ElfError> {
    if !reader.gives(0, ELF_HEADER_SIZE as int) {
        Some(ElfError::Read)
    } else {
        first_fault(
            reader,
            ElfHeader::decode(reader.contents().subrange(0, ELF_HEADER_SIZE as int)).phnum as int,
        )
    }
}

/// The most frames that the segments of the first `n` program headers of
/// `contents` can take: for each segment its pages and the tables that
/// mapping them can need.
pub open spec fn frames_for_segments(contents: Seq<u8>, n: int) -> int
    decreases n,
{
    if n <= 0 {
        0
    } else {
        let ph = program_header(contents, n - 1);
        frames_for_segments(contents, n - 1) + if ph.loads() {
            ph.pages() + tables_for(ph.pages())
        } else {
            0
        }
    }
}

/// Whether page `q` belongs to the segment of one of the first `n` program
/// headers of `contents`, as far as translation can tell.
pub open spec fn in_segment(contents: Seq<u8>, n: int, q: int) -> bool {
    exists|j: int|
        0 <= j < n && (#[trigger] program_header(contents, j)).loads() && touches(
            program_header(contents, j).first_page(),
            program_header(contents, j).pages(),
            q,
        )
}

/// Whether a page of the segment of program header `idx` of `contents` is
/// one of the pages `taken` or belongs to an earlier segment.
pub open spec fn segment_overlaps(
    contents: Seq<u8>,
    idx: int,
    taken: spec_fn(int) -> bool,
) -> bool {
    exists|q: int| #[trigger] overlaps_at(contents, idx, taken, q)
}

/// Whether `q` is a page of the segment of program header `idx` of
/// `contents` that is one of the pages `taken` or belongs to an earlier
/// segment.
pub open spec fn overlaps_at(
    contents: Seq<u8>,
    idx: int,
    taken: spec_fn(int) -> bool,
    q: int,
) -> bool {
    let ph = program_header(contents, idx);
    ph.first_page() <= q < ph.first_page() + ph.pages() && (taken(q) || in_segment(
        contents,
        idx,
        q,
    ))
}

/// Whether no run of frames was left for the segment of program header
/// `idx` of `contents`: of the frames `free`, `left` were still free, no
/// more than `spent` and the frames of the earlier segments were gone, and
/// `left` holds no run of as many frames as the segment has pages.
pub open spec fn short_of_run(
    contents: Seq<u8>,
    idx: int,
    free: Set<int>,
    left: Set<int>,
    spent: int,
) -> bool {
    &&& left.subset_of(free)
    &&& at_most_taken(free, left, spent + frames_for_segments(contents, idx))
    &&& no_free_run(left, program_header(contents, idx).pages())
}

/// Whether no frame was left for a table while the segment of program
/// header `idx` of `contents` was mapped: `free` holds no more frames than
/// `spent` and what the segments up to this one can take.
pub open spec fn short_of_frames(contents: Seq<u8>, idx: int, free: Set<int>, spent: int) -> bool {
    at_most_taken(free, Set::<int>::empty(), spent + frames_for_segments(contents, idx + 1))
}

/// The pages that translate in the tree `pt`.
pub open spec fn translating<M: TableMemory>(pt: &PageTable, mem: &M) -> spec_fn(int) -> bool {
    |q: int| pt.translate(mem, q) is Some
}

/// Whether `e` is explained as the reason why the file that `reader` holds
/// was not loaded, where `free` were the free frames of which at most
/// `spent` were taken before the first segment, into an address space that
/// had the pages `taken`.
///
/// `Read` and `BadSegment` are the first thing wrong with the file. The
/// other errors come at a program header that asks for a segment, with
/// nothing wrong in the file up to it: `OutOfMemory` where no run of frames
/// was left for the segment; `Unmappable(Overlap)` where a page of the
/// segment was taken or belongs to an earlier segment;
/// `Unmappable(OutOfFrames)` where no frame was left for a table. A segment
/// that is sound is never out of range.
pub open spec fn explains<R: Readable>(
    reader: &R,
    e: ElfError,
    free: Set<int>,
    spent: int,
    taken: spec_fn(int) -> bool,
) -> bool {
    let contents = reader.contents();
    match e {
        ElfError::Read => file_fault(reader) == Some(e),
        ElfError::BadSegment => file_fault(reader) == Some(e),
        ElfError::OutOfMemory => exists|idx: int, left: Set<int>|
            stopped_at(reader, idx) && #[trigger] short_of_run(contents, idx, free, left, spent),
        ElfError::Unmappable(MapError::OutOfFrames) => exists|idx: int|
            stopped_at(reader, idx) && #[trigger] short_of_frames(contents, idx, free, spent),
        ElfError::Unmappable(MapError::Overlap) => exists|idx: int|
            stopped_at(reader, idx) && #[trigger] segment_overlaps(contents, idx, taken),
        ElfError::Unmappable(MapError::OutOfRange) => false,
    }
}

/// Whether `free` holds frames for every segment of `contents` whatever
/// frames the allocator picks, where at most `spent` frames are taken
/// before the first segment: it holds more frames than can be taken in
/// all, and for every segment a run so long that a run for the segment is
/// left of it when all frames are gone that can be taken before.
pub open spec fn frames_at_hand(contents: Seq<u8>, free: Set<int>, spent: int) -> bool {
    let n = ElfHeader::decode(contents.subrange(0, ELF_HEADER_SIZE as int)).phnum as int;
    &&& free.finite()
    &&& free.len() > spent + frames_for_segments(contents, n)
    &&& forall|idx: int|
        0 <= idx < n && (#[trigger] program_header(contents, idx)).loads() ==> long_run(
            free,
            (spent + frames_for_segments(contents, idx) + 1) * program_header(
                contents,
                idx,
            ).pages(),
        )
}

/// Whether the file that `reader` holds loads whatever frames the
/// allocator picks: nothing is wrong with the file, the frames are at hand,
/// and no page of a segment is one of the pages `taken` or belongs to an
/// earlier segment.
pub open spec fn loads_freely<R: Readable>(
    reader: &R,
    free: Set<int>,
    spent: int,
    taken: spec_fn(int) -> bool,
) -> bool {
    let contents = reader.contents();
    let n = ElfHeader::decode(contents.subrange(0, ELF_HEADER_SIZE as int)).phnum as int;
    &&& 0 <= spent
    &&& file_fault(reader) is None
    &&& frames_at_hand(contents, free, spent)
    &&& forall|idx: int|
        0 <= idx < n && (#[trigger] program_header(contents, idx)).loads() ==> !segment_overlaps(
            contents,
            idx,
            taken,
        )
}

/// The pages of a segment are page numbers.
proof fn lemma_segment_pages(ph: ProgramHeader)
    ensures
        0 <= ph.first_page(),
        0 <= ph.pages(),
        ph.first_page() + ph.pages() <= u64::MAX,
{
}

/// More program headers need no fewer frames.
pub proof fn lemma_frames_for_segments(contents: Seq<u8>, n: int, m: int)
    requires
        0 <= n <= m,
    ensures
        0 <= frames_for_segments(contents, n) <= frames_for_segments(contents, m),
    decreases m,
{
    if n < m {
        lemma_frames_for_segments(contents, n, m - 1);
    } else if n > 0 {
        lemma_frames_for_segments(contents, n - 1, n - 1);
    }
}

/// A file that loads freely is loaded: no error is explained.
pub proof fn law_image_loads<R: Readable>(
    reader: &R,
    e: ElfError,
    free: Set<int>,
    spent: int,
    taken: spec_fn(int) -> bool,
)
    requires
        loads_freely(reader, free, spent, taken),
    ensures
        !explains(reader, e, free, spent, taken),
{
    let contents = reader.contents();
    let n = ElfHeader::decode(contents.subrange(0, ELF_HEADER_SIZE as int)).phnum as int;
    if explains(reader, e, free, spent, taken) {
        match e {
            ElfError::OutOfMemory => {
                let (idx, left) = choose|idx: int, left: Set<int>|
                    stopped_at(reader, idx) && #[trigger] short_of_run(
                        contents,
                        idx,
                        free,
                        left,
                        spent,
                    );
                let ph = program_header(contents, idx);
                lemma_frames_for_segments(contents, idx, idx);
                assert(ph.loads());
                let most = spent + frames_for_segments(contents, idx);
                assert(long_run(free, (most + 1) * ph.pages()));
                let s = choose|s: int| #[trigger] is_free_run(free, s, (most + 1) * ph.pages());
                lemma_run_left(free, left, s, ph.pages(), most);
            },
            ElfError::Unmappable(MapError::OutOfFrames) => {
                let idx = choose|idx: int|
                    stopped_at(reader, idx) && #[trigger] short_of_frames(
                        contents,
                        idx,
                        free,
                        spent,
                    );
                lemma_frames_for_segments(contents, idx + 1, n);
            },
            ElfError::Unmappable(MapError::Overlap) => {
                let idx = choose|idx: int|
                    stopped_at(reader, idx) && #[trigger] segment_overlaps(contents, idx, taken);
                assert(program_header(contents, idx).loads());
            },
            _ => {},
        }
    }
}

/// What explains a failure of loading explains it also where frames were
/// taken and pages mapped before loading began.
pub proof fn lemma_explains_after<R: Readable>(
    reader: &R,
    e: ElfError,
    free: Set<int>,
    free_then: Set<int>,
    spent: int,
    taken: spec_fn(int) -> bool,
    taken_then: spec_fn(int) -> bool,
)
    requires
        explains(reader, e, free_then, 0, taken_then),
        free_then.subset_of(free),
        at_most_taken(free, free_then, spent),
        forall|q: int| 0 <= q <= u64::MAX && #[trigger] taken_then(q) ==> taken(q),
    ensures
        explains(reader, e, free, spent, taken),
{
    let contents = reader.contents();
    match e {
        ElfError::OutOfMemory => {
            let (idx, left) = choose|idx: int, left: Set<int>|
                stopped_at(reader, idx) && #[trigger] short_of_run(
                    contents,
                    idx,
                    free_then,
                    left,
                    0,
                );
            lemma_taken_twice(free, free_then, left, spent, frames_for_segments(contents, idx));
            assert(short_of_run(contents, idx, free, left, spent));
        },
        ElfError::Unmappable(MapError::OutOfFrames) => {
            let idx = choose|idx: int|
                stopped_at(reader, idx) && #[trigger] short_of_frames(contents, idx, free_then, 0);
            lemma_taken_twice(
                free,
                free_then,
                Set::<int>::empty(),
                spent,
                frames_for_segments(contents, idx + 1),
            );
            assert(short_of_frames(contents, idx, free, spent));
        },
        ElfError::Unmappable(MapError::Overlap) => {
            let idx = choose|idx: int|
                stopped_at(reader, idx) && #[trigger] segment_overlaps(contents, idx, taken_then);
            let ph = program_header(contents, idx);
            let q = choose|q: int| #[trigger] overlaps_at(contents, idx, taken_then, q);
            lemma_segment_pages(ph);
            assert(0 <= q <= u64::MAX);
            if taken_then(q) {
                assert(taken(q));
            }
            assert(overlaps_at(contents, idx, taken, q));
            assert(segment_overlaps(contents, idx, taken));
        },
        _ => {},
    }
}

/// Whether loading can have stopped at program header `idx` for a reason
/// that is not in the file: the header asks for a segment, and nothing is
/// wrong with the file up to it and with it.
pub open spec fn stopped_at<R: Readable>(reader: &R, idx: int) -> bool {
    &&& 0 <= idx < ElfHeader::decode(
        reader.contents().subrange(0, ELF_HEADER_SIZE as int),
    ).phnum
    &&& program_header(reader.contents(), idx).loads()
    &&& reader.gives(0, ELF_HEADER_SIZE as int)
    &&& first_fault(reader, idx + 1) is None
}

/// A fault among the first program headers is the first fault among more
/// of them too.
pub proof fn lemma_first_fault<R: Readable>(reader: &R, n: int, m: int)
    requires
        n <= m,
        first_fault(reader, n) is Some,
    ensures
        first_fault(reader, m) == first_fault(reader, n),
    decreases m - n,
{
    if n < m {
        lemma_first_fault(reader, n, m - 1);
    }
}

/// The frames of all the regions of `regions`.
pub open spec fn frames_of_all(regions: Seq<FrameRegion>) -> Set<int> {
    Set::new(|f: int| exists|i: int| 0 <= i < regions.len() && (#[trigger] regions[i]).contains(f))
}

/// Whether the frames ran out at program header `idx` of `contents`: the
/// header asks for a segment, the segments before it got frames, one
/// region of `regions` each and of the segment's size, and with those and
/// the tables `tables` gone `free` holds no run of frames for the segment.
pub open spec fn ran_out_at(
    contents: Seq<u8>,
    idx: int,
    regions: Seq<FrameRegion>,
    free: Set<int>,
    tables: Set<int>,
) -> bool {
    let before = load_headers(contents, idx);
    let ph = program_header(contents, idx);
    &&& ph.loads()
    &&& regions.len() == before.len()
    &&& forall|i: int|
        0 <= i < regions.len() ==> (#[trigger] regions[i]).wf() && regions[i].num
            == before[i].pages()
    &&& no_free_run(free.difference(tables).difference(frames_of_all(regions)), ph.pages())
}

/// Whether the frames ran out while the file `contents` was loaded with the
/// frames `free` free, into a tree that has the tables `tables` in the end.
pub open spec fn ran_out(contents: Seq<u8>, free: Set<int>, tables: Set<int>) -> bool {
    exists|idx: int, regions: Seq<FrameRegion>|
        0 <= idx < ElfHeader::decode(contents.subrange(0, ELF_HEADER_SIZE as int)).phnum
            && #[trigger] ran_out_at(contents, idx, regions, free, tables)
}

/// An image that is loaded: where it starts, and its segments.
pub struct LoadedImage {
    pub entry: u64,
    pub segments: Vec<LoadedSegment>,
}

impl LoadedImage {
    /// Whether the image is what the file `contents` asks for: the entry is
    /// that of the file header, and there is one segment for each program
    /// header that asks for one, in the order of the file.
    pub open spec fn loads(self, contents: Seq<u8>) -> bool {
        let h = ElfHeader::decode(contents.subrange(0, ELF_HEADER_SIZE as int));
        let phs = load_headers(contents, h.phnum as int);
        &&& self.entry == h.entry
        &&& self.segments@.len() == phs.len()
        &&& forall|i: int|
            0 <= i < phs.len() ==> (#[trigger] self.segments@[i]).loads(phs[i], contents)
    }

    /// Whether every segment of the image is mapped by `pt`.
    pub open spec fn mapped_by<M: TableMemory>(self, pt: &PageTable, mem: &M) -> bool {
        forall|i: int|
            0 <= i < self.segments@.len() ==> pt.maps(
                mem,
                (#[trigger] self.segments@[i]).region(),
                self.segments@[i].flags,
            )
    }
}

/// What loading leaves of the state before it: the tree is valid and has
/// its old root; its entries let writes and user mode through to every
/// table if they did; its tables are the old ones and frames that were free; the
/// free frames were free before; no word outside the tables has changed; and
/// every page that translated translates as before.
pub open spec fn carried_over<M: TableMemory, A: FrameAllocator>(
    pt: &PageTable,
    mem: &M,
    alloc: &A,
    pt_before: &PageTable,
    mem_before: &M,
    free_before: Set<int>,
) -> bool {
    &&& pt.wf(mem)
    &&& alloc.wf()
    &&& backs(alloc, mem)
    &&& pt.tables().disjoint(alloc.free_frames())
    &&& pt.root() == pt_before.root()
    &&& pt_before.permissive(mem_before) ==> pt.permissive(mem)
    &&& alloc.free_frames().subset_of(free_before)
    &&& pt_before.tables().subset_of(pt.tables())
    &&& pt.tables().subset_of(pt_before.tables().union(free_before))
    &&& forall|f: int| mem.holds(f) == mem_before.holds(f)
    &&& forall|f: int, i: int|
        !pt.tables().contains(f) ==> #[trigger] mem.word(f, i) == mem_before.word(f, i)
    &&& pt.extends(pt_before, mem, mem_before)
}

/// Gives the segment of the program header `ph` frames and a mapping, and
/// reads its bytes. The header must ask for a segment.
fn load_segment<R: Readable, M: TableMemory, A: FrameAllocator>(
    reader: &R,
    ph: &ProgramHeader,
    pt: &mut PageTable,
    mem: &mut M,
    alloc: &mut A,
) -> (r: Result<LoadedSegment, ElfError>)
    requires
        old(pt).wf(old(mem)),
        old(alloc).wf(),
        backs(old(alloc), old(mem)),
        old(pt).tables().disjoint(old(alloc).free_frames()),
        ph.loads(),
    ensures
        carried_over(
            final(pt),
            final(mem),
            final(alloc),
            old(pt),
            old(mem),
            old(alloc).free_frames(),
        ),
        match r {
            Ok(seg) => {
                &&& ph.sound()
                &&& seg.loads(*ph, reader.contents())
                &&& final(pt).maps(final(mem), seg.region(), seg.flags)
                &&& seg.frames.wf()
                &&& seg.frames.frames().subset_of(old(alloc).free_frames())
                &&& seg.frames.frames().disjoint(final(alloc).free_frames())
                &&& seg.frames.frames().disjoint(final(pt).tables())
                &&& final(alloc).free_frames() == old(alloc).free_frames().difference(
                    final(pt).tables(),
                ).difference(seg.frames.frames())
                &&& !segment_unread(reader, *ph)
                &&& at_most_taken(
                    old(alloc).free_frames(),
                    final(alloc).free_frames(),
                    ph.pages() + tables_for(ph.pages()),
                )
                &&& forall|q: int|
                    0 <= q <= u64::MAX && !touches(ph.first_page(), ph.pages(), q)
                        ==> #[trigger] final(pt).translate(final(mem), q) == old(pt).translate(
                        old(mem),
                        q,
                    )
            },
            Err(e) => {
                &&& e == ElfError::BadSegment <==> !ph.sound()
                &&& e == ElfError::Read <==> ph.sound() && segment_unread(reader, *ph)
                &&& e == ElfError::OutOfMemory ==> final(pt).tables() == old(pt).tables()
                    && no_free_run(old(alloc).free_frames(), ph.pages())
                &&& e != ElfError::Unmappable(MapError::OutOfRange)
                &&& e == ElfError::Unmappable(MapError::Overlap) ==> !old(pt).unmapped(
                    old(mem),
                    ph.first_page(),
                    ph.pages(),
                )
                &&& e == ElfError::Unmappable(MapError::OutOfFrames) ==> at_most_taken(
                    old(alloc).free_frames(),
                    Set::<int>::empty(),
                    ph.pages() + tables_for(ph.pages()),
                )
            },
        },
{
    proof {
        assert(pt.extends(old(pt), mem, old(mem)));
    }
    if ph.filesz > ph.memsz || ph.vaddr > USER_SPACE_END || ph.memsz > USER_SPACE_END - ph.vaddr {
        return Err(ElfError::BadSegment);
    }
    let page_offset: u64 = ph.vaddr % 4096;
    let pages: u64 = (page_offset + ph.memsz + 4095) / 4096;
    if ph.offset > usize::MAX as u64 || ph.filesz > usize::MAX as u64 {
        return Err(ElfError::Read);
    }
    let data = match reader.read(ph.offset as usize, ph.filesz as usize) {
        Ok(d) => d,
        Err(_) => {
            return Err(ElfError::Read);
        },
    };
    let frames = match alloc.allocate(pages) {
        Ok(f) => f,
        Err(_) => {
            assert(pages > 0);
            return Err(ElfError::OutOfMemory);
        },
    };
    let ghost free1 = alloc.free_frames();
    let region = MappingRegion {
        phys_begin: frames.start(),
        virt_begin: Page::new(ph.vaddr / 4096),
        num: pages,
    };
    let flags = ph.get_page_flags();
    proof {
        lemma_run_taken(old(alloc).free_frames(), free1, frames);
        assert(frames.frames().contains(frames.begin@ + pages - 1));
        assert(PageTable::mappable(region));
    }
    let mapped = pt.try_map(mem, alloc, &region, flags);
    proof {
        lemma_taken_twice(
            old(alloc).free_frames(),
            free1,
            alloc.free_frames(),
            pages as int,
            tables_for(pages as int),
        );
    }
    match mapped {
        Ok(()) => {},
        Err(e) => {
            let _ = alloc.free(&frames);
            return Err(ElfError::Unmappable(e));
        },
    }
    proof {
        assert(alloc.free_frames() =~= old(alloc).free_frames().difference(
            pt.tables(),
        ).difference(frames.frames())) by {
            assert(free1 == old(alloc).free_frames().difference(frames.frames()));
            assert(pt.tables() == old(pt).tables().union(free1.difference(alloc.free_frames())));
        }
    }
    Ok(
        LoadedSegment {
            frames,
            virt_begin: region.virt_begin,
            flags,
            page_offset,
            data,
            memsz: ph.memsz,
        },
    )
}

/// Gives the frames of `segments` back to `alloc`, as far as it takes them:
/// segment by segment, whatever becomes of the one before. Nothing else
/// becomes free, and nothing that was free is taken.
fn give_back<M: TableMemory, A: FrameAllocator>(
    segments: &Vec<LoadedSegment>,
    pt: &PageTable,
    mem: &M,
    alloc: &mut A,
    Ghost(free_before): Ghost<Set<int>>,
)
    requires
        old(alloc).wf(),
        backs(old(alloc), mem),
        pt.tables().disjoint(old(alloc).free_frames()),
        old(alloc).free_frames().subset_of(free_before),
        forall|f: int| free_before.contains(f) ==> mem.holds(f) && 0 <= f < 0x100_0000_0000,
        forall|i: int|
            0 <= i < segments@.len() ==> {
                let frames = (#[trigger] segments@[i]).frames.frames();
                &&& frames.subset_of(free_before)
                &&& frames.disjoint(pt.tables())
            },
    ensures
        final(alloc).wf(),
        backs(final(alloc), mem),
        pt.tables().disjoint(final(alloc).free_frames()),
        final(alloc).free_frames().subset_of(free_before),
        old(alloc).free_frames().subset_of(final(alloc).free_frames()),
        forall|f: int|
            final(alloc).free_frames().contains(f) ==> old(alloc).free_frames().contains(f)
                || exists|i: int|
                0 <= i < segments@.len() && (#[trigger] segments@[i]).frames.contains(f),
        forall|i: int|
            0 <= i < segments@.len() ==> returned_or_refused::<A>(
                old(alloc).free_frames(),
                final(alloc).free_frames(),
                (#[trigger] segments@[i]).frames,
            ),
{
    let mut i: usize = 0;
    while i < segments.len()
        invariant
            i <= segments@.len(),
            alloc.wf(),
            backs(alloc, mem),
            pt.tables().disjoint(alloc.free_frames()),
            alloc.free_frames().subset_of(free_before),
            old(alloc).free_frames().subset_of(alloc.free_frames()),
            forall|f: int| free_before.contains(f) ==> mem.holds(f) && 0 <= f < 0x100_0000_0000,
            forall|i: int|
                0 <= i < segments@.len() ==> {
                    let frames = (#[trigger] segments@[i]).frames.frames();
                    &&& frames.subset_of(free_before)
                    &&& frames.disjoint(pt.tables())
                },
            forall|f: int|
                alloc.free_frames().contains(f) ==> old(alloc).free_frames().contains(f)
                    || exists|k: int|
                    0 <= k < i && (#[trigger] segments@[k]).frames.contains(f),
            forall|k: int|
                0 <= k < i ==> returned_or_refused::<A>(
                    old(alloc).free_frames(),
                    alloc.free_frames(),
                    (#[trigger] segments@[k]).frames,
                ),
        decreases segments@.len() - i,
    {
        let ghost before = alloc.free_frames();
        let region = segments[i].frames;
        let freed = alloc.free(&region);
        proof {
            let now = alloc.free_frames();
            assert forall|k: int| 0 <= k < i + 1 implies returned_or_refused::<A>(
                old(alloc).free_frames(),
                now,
                (#[trigger] segments@[k]).frames,
            ) by {
                if k < i {
                    lemma_still_returned::<A>(
                        old(alloc).free_frames(),
                        before,
                        now,
                        segments@[k].frames,
                    );
                } else if freed is Err {
                    assert(!alloc.can_free(region));
                }
            }
            assert forall|f: int| now.contains(f) implies old(alloc).free_frames().contains(f)
                || exists|k: int|
                0 <= k < i + 1 && (#[trigger] segments@[k]).frames.contains(f) by {
                if !before.contains(f) {
                    assert(segments@[i as int].frames.contains(f));
                } else if !old(alloc).free_frames().contains(f) {
                    let k = choose|k: int|
                        0 <= k < i && (#[trigger] segments@[k]).frames.contains(f);
                    assert(segments@[k].frames.contains(f));
                }
            }
        }
        i += 1;
    }
}

/// A page of a segment of the first program headers is one of a segment
/// of more of them.
proof fn lemma_in_segment(contents: Seq<u8>, idx: int)
    ensures
        forall|q: int| in_segment(contents, idx, q) ==> in_segment(contents, idx + 1, q),
{
    assert forall|q: int| in_segment(contents, idx, q) implies in_segment(contents, idx + 1, q) by {
        let j = choose|j: int|
            0 <= j < idx && (#[trigger] program_header(contents, j)).loads() && touches(
                program_header(contents, j).first_page(),
                program_header(contents, j).pages(),
                q,
            );
        assert(program_header(contents, j).loads());
    }
}

/// After the segment of program header `idx` is loaded, the frames that
/// are gone and the pages that translate are those of the segments up to
/// it.
proof fn lemma_segment_loaded<M: TableMemory>(
    contents: Seq<u8>,
    idx: int,
    free: Set<int>,
    free_then: Set<int>,
    free_now: Set<int>,
    first: &PageTable,
    mem_first: &M,
    then: &PageTable,
    mem_then: &M,
    now: &PageTable,
    mem_now: &M,
)
    requires
        0 <= idx,
        program_header(contents, idx).loads(),
        at_most_taken(free, free_then, frames_for_segments(contents, idx)),
        at_most_taken(
            free_then,
            free_now,
            program_header(contents, idx).pages() + tables_for(
                program_header(contents, idx).pages(),
            ),
        ),
        forall|q: int|
            0 <= q <= u64::MAX && (#[trigger] then.translate(mem_then, q)) is Some
                ==> first.translate(mem_first, q) is Some || in_segment(contents, idx, q),
        forall|q: int|
            0 <= q <= u64::MAX && !touches(
                program_header(contents, idx).first_page(),
                program_header(contents, idx).pages(),
                q,
            ) ==> #[trigger] now.translate(mem_now, q) == then.translate(mem_then, q),
    ensures
        at_most_taken(free, free_now, frames_for_segments(contents, idx + 1)),
        forall|q: int|
            0 <= q <= u64::MAX && (#[trigger] now.translate(mem_now, q)) is Some
                ==> first.translate(mem_first, q) is Some || in_segment(contents, idx + 1, q),
{
    let ph = program_header(contents, idx);
    lemma_taken_twice(
        free,
        free_then,
        free_now,
        frames_for_segments(contents, idx),
        ph.pages() + tables_for(ph.pages()),
    );
    lemma_in_segment(contents, idx);
    assert(frames_for_segments(contents, idx + 1) == frames_for_segments(contents, idx)
        + ph.pages() + tables_for(ph.pages()));
    assert forall|q: int|
        0 <= q <= u64::MAX && (#[trigger] now.translate(mem_now, q)) is Some implies first.translate(
        mem_first,
        q,
    ) is Some || in_segment(contents, idx + 1, q) by {
        if touches(ph.first_page(), ph.pages(), q) {
            assert(program_header(contents, idx).loads());
        } else {
            assert(then.translate(mem_then, q) is Some);
        }
    }
}

/// What `load_segment` says of a failure explains the failure of loading.
proof fn lemma_segment_failed<R: Readable, M: TableMemory>(
    reader: &R,
    idx: int,
    e: ElfError,
    free: Set<int>,
    free_then: Set<int>,
    first: &PageTable,
    mem_first: &M,
    then: &PageTable,
    mem_then: &M,
)
    requires
        0 <= idx < ElfHeader::decode(reader.contents().subrange(0, ELF_HEADER_SIZE as int)).phnum,
        reader.gives(0, ELF_HEADER_SIZE as int),
        first_fault(reader, idx) is None,
        program_header_offset(
            ElfHeader::decode(reader.contents().subrange(0, ELF_HEADER_SIZE as int)),
            idx,
        ) <= usize::MAX,
        reader.gives(
            program_header_offset(
                ElfHeader::decode(reader.contents().subrange(0, ELF_HEADER_SIZE as int)),
                idx,
            ),
            PROGRAM_HEADER_SIZE as int,
        ),
        program_header(reader.contents(), idx).loads(),
        e == ElfError::BadSegment <==> !program_header(reader.contents(), idx).sound(),
        e == ElfError::Read <==> program_header(reader.contents(), idx).sound() && segment_unread(
            reader,
            program_header(reader.contents(), idx),
        ),
        e == ElfError::OutOfMemory ==> no_free_run(
            free_then,
            program_header(reader.contents(), idx).pages(),
        ),
        e != ElfError::Unmappable(MapError::OutOfRange),
        e == ElfError::Unmappable(MapError::Overlap) ==> !then.unmapped(
            mem_then,
            program_header(reader.contents(), idx).first_page(),
            program_header(reader.contents(), idx).pages(),
        ),
        e == ElfError::Unmappable(MapError::OutOfFrames) ==> at_most_taken(
            free_then,
            Set::<int>::empty(),
            program_header(reader.contents(), idx).pages() + tables_for(
                program_header(reader.contents(), idx).pages(),
            ),
        ),
        free_then.subset_of(free),
        at_most_taken(free, free_then, frames_for_segments(reader.contents(), idx)),
        forall|q: int|
            0 <= q <= u64::MAX && (#[trigger] then.translate(mem_then, q)) is Some
                ==> first.translate(mem_first, q) is Some || in_segment(reader.contents(), idx, q),
    ensures
        explains(reader, e, free, 0, translating(first, mem_first)),
{
    let contents = reader.contents();
    let ph = program_header(contents, idx);
    let n = ElfHeader::decode(contents.subrange(0, ELF_HEADER_SIZE as int)).phnum as int;
    if e == ElfError::Read || e == ElfError::BadSegment {
        assert(header_fault(reader, idx) == Some(e));
        lemma_first_fault(reader, idx + 1, n);
    } else {
        assert(header_fault(reader, idx) is None);
        assert(stopped_at(reader, idx));
        if e == ElfError::Unmappable(MapError::OutOfFrames) {
            lemma_taken_twice(
                free,
                free_then,
                Set::<int>::empty(),
                frames_for_segments(contents, idx),
                ph.pages() + tables_for(ph.pages()),
            );
            assert(short_of_frames(contents, idx, free, 0));
        }
        if e == ElfError::Unmappable(MapError::Overlap) {
            let q = choose|q: int|
                ph.first_page() <= q < ph.first_page() + ph.pages() && (#[trigger] then.translate(
                    mem_then,
                    q,
                )) is Some;
            lemma_segment_pages(ph);
            assert(0 <= q <= u64::MAX);
            assert(then.translate(mem_then, q) is Some);
            let taken = translating(first, mem_first);
            assert(taken(q) == (first.translate(mem_first, q) is Some));
            assert(overlaps_at(contents, idx, taken, q));
            assert(segment_overlaps(contents, idx, taken));
        }
        if e == ElfError::OutOfMemory {
            assert(short_of_run(contents, idx, free, free_then, 0));
        }
    }
}

/// Loads the image that `reader` holds into the address space of `pt`.
///
/// For every program header that asks for it, in the order of the file, a
/// segment gets frames from `alloc` and a mapping in `pt`, with the
/// permissions that the header names; the result names the frames and the
/// bytes that belong into them, and the entry point. What translated before
/// translates as before.
///
/// Fails where the source refuses a read or a program header lies beyond
/// any offset, where a segment is not sound, where `alloc` has
/// no frames for a segment, or where a segment cannot be mapped; every
/// error comes with its reason, as `explains` says, and a file that loads
/// freely is loaded. The tree stays valid in every case, with the segments
/// that were mapped until then; their frames go back to `alloc`, as far as
/// it takes them.
pub fn load_elf<R: Readable, M: TableMemory, A: FrameAllocator>(
    reader: &R,
    pt: &mut PageTable,
    mem: &mut M,
    alloc: &mut A,
) -> (r: Result<LoadedImage, ElfError>)
    requires
        old(pt).wf(old(mem)),
        old(alloc).wf(),
        backs(old(alloc), old(mem)),
        old(pt).tables().disjoint(old(alloc).free_frames()),
    ensures
        carried_over(
            final(pt),
            final(mem),
            final(alloc),
            old(pt),
            old(mem),
            old(alloc).free_frames(),
        ),
        match r {
            Ok(image) => {
                &&& image.loads(reader.contents())
                &&& image.mapped_by(final(pt), final(mem))
                &&& forall|i: int|
                    0 <= i < image.segments@.len() ==> {
                        let frames = (#[trigger] image.segments@[i]).frames.frames();
                        &&& frames.subset_of(old(alloc).free_frames())
                        &&& frames.disjoint(final(alloc).free_frames())
                        &&& frames.disjoint(final(pt).tables())
                    }
                &&& forall|i: int, j: int|
                    0 <= i < j < image.segments@.len() ==> (
                    #[trigger] image.segments@[i]).frames.frames().disjoint(
                        (#[trigger] image.segments@[j]).frames.frames(),
                    )
            },
            Err(e) => {
                &&& e == ElfError::BadSegment ==> has_unsound_segment(reader.contents())
                &&& explains(
                    reader,
                    e,
                    old(alloc).free_frames(),
                    0,
                    translating(old(pt), old(mem)),
                )
                &&& e == ElfError::OutOfMemory ==> ran_out(
                    reader.contents(),
                    old(alloc).free_frames(),
                    final(pt).tables(),
                )
            },
        },
        r is Ok ==> file_fault(reader) is None,
        !reader.gives(0, ELF_HEADER_SIZE as int) ==> r == Err::<LoadedImage, ElfError>(
            ElfError::Read,
        ),
        loads_freely(reader, old(alloc).free_frames(), 0, translating(old(pt), old(mem))) ==> r
            is Ok,
{
    proof {
        assert(pt.extends(old(pt), mem, old(mem)));
    }
    let hb = match reader.read(0, ELF_HEADER_SIZE) {
        Ok(b) => b,
        Err(_) => {
            return Err(ElfError::Read);
        },
    };
    let header = ElfHeader::parse(&hb);
    let ghost contents = reader.contents();
    let mut segments: Vec<LoadedSegment> = Vec::new();
    let ghost mut regions: Seq<FrameRegion> = Seq::empty();
    let mut idx: u16 = 0;
    proof {
        assert(alloc.free_frames() =~= old(alloc).free_frames().difference(
            pt.tables(),
        ).difference(frames_of_all(regions)));
    }
    while idx < header.phnum
        invariant
            idx <= header.phnum,
            contents == reader.contents(),
            reader.gives(0, ELF_HEADER_SIZE as int),
            first_fault(reader, idx as int) is None,
            at_most_taken(
                old(alloc).free_frames(),
                alloc.free_frames(),
                frames_for_segments(contents, idx as int),
            ),
            forall|q: int|
                0 <= q <= u64::MAX && (#[trigger] pt.translate(mem, q)) is Some ==> old(
                    pt,
                ).translate(old(mem), q) is Some || in_segment(contents, idx as int, q),
            regions.len() == segments@.len(),
            forall|i: int| 0 <= i < regions.len() ==> #[trigger] regions[i] == segments@[i].frames,
            alloc.free_frames() == old(alloc).free_frames().difference(pt.tables()).difference(
                frames_of_all(regions),
            ),
            header == ElfHeader::decode(contents.subrange(0, ELF_HEADER_SIZE as int)),
            old(pt).wf(old(mem)),
            backs(old(alloc), old(mem)),
            carried_over(pt, mem, alloc, old(pt), old(mem), old(alloc).free_frames()),
            segments@.len() == load_headers(contents, idx as int).len(),
            forall|i: int|
                0 <= i < segments@.len() ==> (#[trigger] segments@[i]).loads(
                    load_headers(contents, idx as int)[i],
                    contents,
                ),
            forall|i: int|
                0 <= i < segments@.len() ==> pt.maps(
                    mem,
                    (#[trigger] segments@[i]).region(),
                    segments@[i].flags,
                ),
            forall|i: int|
                0 <= i < segments@.len() ==> {
                    let frames = (#[trigger] segments@[i]).frames.frames();
                    &&& segments@[i].frames.wf()
                    &&& frames.subset_of(old(alloc).free_frames())
                    &&& frames.disjoint(alloc.free_frames())
                    &&& frames.disjoint(pt.tables())
                },
            forall|i: int, j: int|
                0 <= i < j < segments@.len() ==> (#[trigger] segments@[i]).frames.frames().disjoint(
                    (#[trigger] segments@[j]).frames.frames(),
                ),
        decreases header.phnum - idx,
    {
        assert((idx as u64) * (header.phentsize as u64) <= 0xffff * 0xffff) by (nonlinear_arith)
            requires
                idx <= 0xffff,
                header.phentsize <= 0xffff,
        ;
        let step: u64 = (idx as u64) * (header.phentsize as u64);
        if header.phoff > u64::MAX - step {
            proof {
                assert(header_fault(reader, idx as int) == Some(ElfError::Read));
                lemma_first_fault(reader, idx + 1, header.phnum as int);
            }
            give_back(&segments, pt, mem, alloc, Ghost(old(alloc).free_frames()));
            return Err(ElfError::Read);
        }
        let at: u64 = header.phoff + step;
        if at > usize::MAX as u64 {
            proof {
                assert(header_fault(reader, idx as int) == Some(ElfError::Read));
                lemma_first_fault(reader, idx + 1, header.phnum as int);
            }
            give_back(&segments, pt, mem, alloc, Ghost(old(alloc).free_frames()));
            return Err(ElfError::Read);
        }
        let pb = match reader.read(at as usize, PROGRAM_HEADER_SIZE) {
            Ok(b) => b,
            Err(_) => {
                proof {
                    assert(header_fault(reader, idx as int) == Some(ElfError::Read));
                    lemma_first_fault(reader, idx + 1, header.phnum as int);
                }
                give_back(&segments, pt, mem, alloc, Ghost(old(alloc).free_frames()));
                return Err(ElfError::Read);
            },
        };
        let ph = ProgramHeader::parse(&pb);
        assert(ph == program_header(contents, idx as int));
        if ph.tybe == PT_LOAD && ph.memsz > 0 {
            let ghost pt0 = *pt;
            let ghost mem0 = *mem;
            let ghost free0 = alloc.free_frames();
            let ghost before = segments@;
            let seg = match load_segment(reader, &ph, pt, mem, alloc) {
                Ok(s) => s,
                Err(e) => {
                    proof {
                        lemma_segment_failed(
                            reader,
                            idx as int,
                            e,
                            old(alloc).free_frames(),
                            free0,
                            old(pt),
                            old(mem),
                            &pt0,
                            &mem0,
                        );
                        if loads_freely(
                            reader,
                            old(alloc).free_frames(),
                            0,
                            translating(old(pt), old(mem)),
                        ) {
                            law_image_loads(
                                reader,
                                e,
                                old(alloc).free_frames(),
                                0,
                                translating(old(pt), old(mem)),
                            );
                        }
                        if e == ElfError::OutOfMemory {
                            assert forall|i: int| 0 <= i < regions.len() implies (
                            #[trigger] regions[i]).wf() && regions[i].num == load_headers(
                                contents,
                                idx as int,
                            )[i].pages() by {
                                assert(segments@[i].loads(
                                    load_headers(contents, idx as int)[i],
                                    contents,
                                ));
                            }
                            assert(ran_out_at(
                                contents,
                                idx as int,
                                regions,
                                old(alloc).free_frames(),
                                pt.tables(),
                            ));
                        }
                        lemma_carried_over(
                            pt,
                            mem,
                            alloc,
                            &pt0,
                            &mem0,
                            free0,
                            old(pt),
                            old(mem),
                            old(alloc).free_frames(),
                        );
                    }
                    give_back(&segments, pt, mem, alloc, Ghost(old(alloc).free_frames()));
                    return Err(e);
                },
            };
            proof {
                lemma_carried_over(
                    pt,
                    mem,
                    alloc,
                    &pt0,
                    &mem0,
                    free0,
                    old(pt),
                    old(mem),
                    old(alloc).free_frames(),
                );
                assert forall|i: int| 0 <= i < before.len() implies pt.maps(
                    mem,
                    (#[trigger] before[i]).region(),
                    before[i].flags,
                ) by {
                    let region = before[i].region();
                    assert(pt0.maps(&mem0, region, before[i].flags));
                    assert forall|q: int| region.contains(q) implies #[trigger] pt.translate(mem, q)
                        == Some(
                        crate::arch::x86_64::mm::page_table::Translation {
                            frame: region.frame_for(q),
                            flags: before[i].flags,
                            level: 1,
                        },
                    ) by {
                        assert(pt0.translate(&mem0, q) is Some);
                    }
                }
            }
            proof {
                lemma_segment_loaded(
                    contents,
                    idx as int,
                    old(alloc).free_frames(),
                    free0,
                    alloc.free_frames(),
                    old(pt),
                    old(mem),
                    &pt0,
                    &mem0,
                    pt,
                    mem,
                );
                let grown = regions.push(seg.frames);
                assert(alloc.free_frames() =~= old(alloc).free_frames().difference(
                    pt.tables(),
                ).difference(frames_of_all(grown))) by {
                    assert(pt0.tables().subset_of(pt.tables()));
                    assert forall|f: int| frames_of_all(grown).contains(f) <==> frames_of_all(
                        regions,
                    ).contains(f) || seg.frames.contains(f) by {
                        if frames_of_all(regions).contains(f) {
                            let i = choose|i: int|
                                0 <= i < regions.len() && (#[trigger] regions[i]).contains(f);
                            assert(grown[i].contains(f));
                        }
                        if seg.frames.contains(f) {
                            assert(grown[regions.len() as int].contains(f));
                        }
                        if frames_of_all(grown).contains(f) {
                            let i = choose|i: int|
                                0 <= i < grown.len() && (#[trigger] grown[i]).contains(f);
                            if i < regions.len() {
                                assert(regions[i].contains(f));
                            }
                        }
                    }
                }
                regions = grown;
            }
            segments.push(seg);
        } else {
            proof {
                lemma_in_segment(contents, idx as int);
            }
        }
        idx += 1;
    }
    Ok(LoadedImage { entry: header.entry, segments })
}

/// What is carried over two steps is carried over both.
proof fn lemma_carried_over<M: TableMemory, A: FrameAllocator>(
    pt: &PageTable,
    mem: &M,
    alloc: &A,
    pt1: &PageTable,
    mem1: &M,
    free1: Set<int>,
    pt0: &PageTable,
    mem0: &M,
    free0: Set<int>,
)
    requires
        carried_over(pt, mem, alloc, pt1, mem1, free1),
        pt1.root() == pt0.root(),
        free1.subset_of(free0),
        pt0.tables().subset_of(pt1.tables()),
        pt1.tables().subset_of(pt0.tables().union(free0)),
        forall|f: int| mem1.holds(f) == mem0.holds(f),
        forall|f: int, i: int|
            !pt1.tables().contains(f) ==> #[trigger] mem1.word(f, i) == mem0.word(f, i),
        pt1.extends(pt0, mem1, mem0),
        pt0.permissive(mem0) ==> pt1.permissive(mem1),
    ensures
        carried_over(pt, mem, alloc, pt0, mem0, free0),
{
    assert forall|q: int| 0 <= q <= u64::MAX && pt0.translate(mem0, q) is Some implies (
    #[trigger] pt.translate(mem, q)) == pt0.translate(mem0, q) by {
        assert(pt1.translate(mem1, q) == pt0.translate(mem0, q));
    }
}

} // verus!
