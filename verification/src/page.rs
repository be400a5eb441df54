//! The page layer: capture pattern, header fields, segment table, checksum,
//! and the packets that a segment table cuts a page body into.
use crate::bytes;
use crate::crc;
use vstd::prelude::*;
use vstd::slice::{slice_subrange, slice_to_vec};

verus! {

/// Length of the fixed part of a page header.
pub const HEADER_LEN: usize = 27;

/// `header_type` bit: the first segment continues a packet.
pub const CONTINUED: u8 = 1;

/// `header_type` bit: beginning of a logical bitstream.
pub const FIRST_PAGE: u8 = 2;

/// `header_type` bit: end of a logical bitstream.
pub const LAST_PAGE: u8 = 4;

/// Whether `OggS` stands in `s` at `off`.
pub open spec fn is_capture(s: Seq<u8>, off: int) -> bool {
    &&& 0 <= off
    &&& off + 4 <= s.len()
    &&& s[off] == 0x4f
    &&& s[off + 1] == 0x67
    &&& s[off + 2] == 0x67
    &&& s[off + 3] == 0x53
}

/// Sum of a segment table: the length of the page body.
pub open spec fn body_len(lacing: Seq<u8>) -> int
    decreases lacing.len(),
{
    if lacing.len() == 0 {
        0
    } else {
        body_len(lacing.drop_last()) + lacing.last()
    }
}

/// Segment table of the page header at `off`.
pub open spec fn lacing_at(s: Seq<u8>, off: int) -> Seq<u8> {
    s.subrange(off + 27, off + 27 + s[off + 26])
}

/// Whether header and segment table at `off` lie inside `s`.
pub open spec fn has_table(s: Seq<u8>, off: int) -> bool {
    &&& off + 27 <= s.len()
    &&& off + 27 + s[off + 26] <= s.len()
}

/// One past the last byte of the page whose header stands at `off`.
pub open spec fn page_end(s: Seq<u8>, off: int) -> int {
    off + 27 + s[off + 26] + body_len(lacing_at(s, off))
}

/// Whether the whole page whose header stands at `off` lies inside `s`.
pub open spec fn is_complete(s: Seq<u8>, off: int) -> bool {
    has_table(s, off) && page_end(s, off) <= s.len()
}

/// The bytes of the page at `off` with the checksum field zeroed.
pub open spec fn checksummed(s: Seq<u8>, off: int) -> Seq<u8> {
    s.subrange(off, off + 22) + seq![0u8, 0, 0, 0] + s.subrange(off + 26, page_end(s, off))
}

/// What a page holds, and where it stands.
#[verifier::ext_equal]
pub struct PageView {
    pub offset: u64,
    pub flags: u8,
    pub granule: i64,
    pub serial: u32,
    pub seq_no: u32,
    pub lacing: Seq<u8>,
    pub data: Seq<u8>,
}

impl PageView {
    /// The body is as long as the segment table says.
    pub open spec fn wf(self) -> bool {
        &&& self.lacing.len() <= 255
        &&& self.data.len() == body_len(self.lacing)
    }

    pub open spec fn is_first(self) -> bool {
        self.flags & FIRST_PAGE != 0
    }

    pub open spec fn is_last(self) -> bool {
        self.flags & LAST_PAGE != 0
    }

    pub open spec fn is_continued(self) -> bool {
        self.flags & CONTINUED != 0
    }
}

/// `granule_position` of the page header at `off`.
pub open spec fn granule_at(s: Seq<u8>, off: int) -> i64 {
    bytes::signed64(bytes::le64(s, off + 6)) as i64
}

/// `bitstream_serial_number` of the page header at `off`.
pub open spec fn serial_at(s: Seq<u8>, off: int) -> u32 {
    bytes::le32(s, off + 14) as u32
}

/// `page_sequence_number` of the page header at `off`.
pub open spec fn seq_no_at(s: Seq<u8>, off: int) -> u32 {
    bytes::le32(s, off + 18) as u32
}

/// The page that stands at `off`.
pub open spec fn page_at(s: Seq<u8>, off: int) -> PageView {
    PageView {
        offset: off as u64,
        flags: s[off + 5],
        granule: granule_at(s, off),
        serial: serial_at(s, off),
        seq_no: seq_no_at(s, off),
        lacing: lacing_at(s, off),
        data: s.subrange(off + 27 + s[off + 26], page_end(s, off)),
    }
}

/// Why the bytes at an offset are not a usable page.
#[derive(Clone, Copy, Debug, PartialEq, Eq, Structural)]
pub enum PageError {
    /// The capture pattern is missing.
    NoCapture,
    /// `stream_structure_version` is not 0.
    Version,
    /// The input ends inside the page.
    Truncated,
    /// The checksum does not match.
    Checksum,
}

/// The error that the bytes at `off` deserve, if any.
pub open spec fn page_fault(s: Seq<u8>, off: int) -> Option<PageError> {
    if !is_capture(s, off) {
        Some(PageError::NoCapture)
    } else if off + 27 > s.len() {
        Some(PageError::Truncated)
    } else if s[off + 4] != 0 {
        Some(PageError::Version)
    } else if !is_complete(s, off) {
        Some(PageError::Truncated)
    } else if crc::crc(checksummed(s, off)) != bytes::le32(s, off + 22) {
        Some(PageError::Checksum)
    } else {
        None
    }
}

/// Whether a complete page with matching checksum stands at `off`.
pub open spec fn is_page(s: Seq<u8>, off: int) -> bool {
    page_fault(s, off) is None
}

/// One page of a logical bitstream.
#[derive(Debug)]
pub struct Page {
    /// Where the page stands in the input.
    pub offset: u64,
    /// `header_type` bits.
    pub flags: u8,
    /// Position of the last packet that ends here; negative when none does.
    pub granule_position: i64,
    pub serial: u32,
    pub seq_no: u32,
    /// Segment table.
    pub lacing: Vec<u8>,
    /// Page body.
    pub data: Vec<u8>,
}

impl View for Page {
    type V = PageView;

    open spec fn view(&self) -> PageView {
        PageView {
            offset: self.offset,
            flags: self.flags,
            granule: self.granule_position,
            serial: self.serial,
            seq_no: self.seq_no,
            lacing: self.lacing@,
            data: self.data@,
        }
    }
}

pub proof fn body_len_nonneg(lacing: Seq<u8>)
    ensures
        0 <= body_len(lacing) <= 255 * lacing.len(),
    decreases lacing.len(),
{
    if lacing.len() > 0 {
        body_len_nonneg(lacing.drop_last());
    }
}

pub proof fn body_len_concat(a: Seq<u8>, b: Seq<u8>)
    ensures
        body_len(a + b) == body_len(a) + body_len(b),
    decreases b.len(),
{
    if b.len() == 0 {
        assert(a + b =~= a);
    } else {
        assert((a + b).drop_last() =~= a + b.drop_last());
        body_len_concat(a, b.drop_last());
    }
}

/// Whether `OggS` stands in `s` at `off`.
pub fn capture_at(s: &[u8], off: usize) -> (r: bool)
    ensures
        r == is_capture(s@, off as int),
{
    off <= s.len() && s.len() - off >= 4 && s[off] == 0x4f && s[off + 1] == 0x67 && s[off + 2]
        == 0x67 && s[off + 3] == 0x53
}

/// Length of the page body, from the segment table `s[from..to]`.
pub fn table_sum(s: &[u8], from: usize, to: usize) -> (r: usize)
    requires
        from <= to <= s.len(),
        to - from <= 255,
    ensures
        r == body_len(s@.subrange(from as int, to as int)),
        r <= 65025,
{
    let mut r: usize = 0;
    let mut i: usize = from;
    while i < to
        invariant
            from <= i <= to <= s.len(),
            to - from <= 255,
            r == body_len(s@.subrange(from as int, i as int)),
            r <= 255 * (i - from),
        decreases to - i,
    {
        r = r + s[i] as usize;
        assert(s@.subrange(from as int, i + 1).drop_last() =~= s@.subrange(from as int, i as int));
        i = i + 1;
    }
    r
}

impl Page {
    /// Parse and verify the page at `off`; on success also one past its last
    /// byte.
    pub fn parse(s: &[u8], off: usize) -> (r: Result<(Page, usize), PageError>)
        ensures
            match r {
                Ok((page, end)) => {
                    &&& is_page(s@, off as int)
                    &&& page@ == page_at(s@, off as int)
                    &&& page@.wf()
                    &&& end == page_end(s@, off as int)
                    &&& off + 27 <= end <= s@.len()
                },
                Err(e) => page_fault(s@, off as int) == Some(e),
            },
    {
        if !capture_at(s, off) {
            return Err(PageError::NoCapture);
        }
        if s.len() - off < 27 {
            return Err(PageError::Truncated);
        }
        if s[off + 4] != 0 {
            return Err(PageError::Version);
        }
        let n_segs: usize = s[off + 26] as usize;
        if s.len() - off - 27 < n_segs {
            return Err(PageError::Truncated);
        }
        let table_end: usize = off + 27 + n_segs;
        let data_len: usize = table_sum(s, off + 27, table_end);
        if s.len() - table_end < data_len {
            return Err(PageError::Truncated);
        }
        let end: usize = table_end + data_len;
        proof {
            body_len_nonneg(lacing_at(s@, off as int));
        }
        let zeros: Vec<u8> = vec![0u8, 0u8, 0u8, 0u8];
        let c0: u32 = crc::update(0, s, off, off + 22);
        let c1: u32 = crc::update(c0, zeros.as_slice(), 0, 4);
        let c2: u32 = crc::update(c1, s, off + 26, end);
        proof {
            let a = s@.subrange(off as int, off + 22);
            let z = seq![0u8, 0, 0, 0];
            let b = s@.subrange(off + 26, end as int);
            assert(zeros@.subrange(0, 4) =~= z);
            crc::crc_of_concatenation(0, a, z);
            crc::crc_of_concatenation(0, a + z, b);
        }
        if c2 != bytes::le32_at(s, off + 22) {
            return Err(PageError::Checksum);
        }
        Ok((Page::unverified(s, off), end))
    }

    /// The page at `off`, whatever its version and checksum.
    pub fn unverified(s: &[u8], off: usize) -> (r: Page)
        requires
            is_complete(s@, off as int),
        ensures
            r@ == page_at(s@, off as int),
            r@.wf(),
    {
        let n_segs: usize = s[off + 26] as usize;
        assert(off + 27 + n_segs <= s.len());
        proof {
            body_len_nonneg(lacing_at(s@, off as int));
        }
        let table_end: usize = off + 27 + n_segs;
        let data_len: usize = table_sum(s, off + 27, table_end);
        let end: usize = table_end + data_len;
        Page {
            offset: off as u64,
            flags: s[off + 5],
            granule_position: bytes::le_i64_at(s, off + 6),
            serial: bytes::le32_at(s, off + 14),
            seq_no: bytes::le32_at(s, off + 18),
            lacing: slice_to_vec(slice_subrange(s, off + 27, table_end)),
            data: slice_to_vec(slice_subrange(s, table_end, end)),
        }
    }

    /// The page begins a logical bitstream.
    pub fn is_first(&self) -> (r: bool)
        ensures
            r == self@.is_first(),
    {
        self.flags & FIRST_PAGE != 0
    }

    /// The page ends a logical bitstream.
    pub fn is_last(&self) -> (r: bool)
        ensures
            r == self@.is_last(),
    {
        self.flags & LAST_PAGE != 0
    }

    /// The page's first segment continues a packet of an earlier page.
    pub fn is_continued(&self) -> (r: bool)
        ensures
            r == self@.is_continued(),
    {
        self.flags & CONTINUED != 0
    }
}

} // verus!
