//! Opening a physical bitstream and reading its packets.
use crate::demux;
use crate::demux::{Model, OggDemuxer};
use crate::error::Error;
use crate::media::{CodecId, Packet, PacketView};
use crate::page::{Page, PageView};
use crate::process;
use crate::reader;
use crate::register;
use vstd::prelude::*;

verus! {

/// How many pages the search for headers may take.
pub const HEADER_SECTION_MAX_PAGES: usize = 8192;

/// The demuxer with `page` at the end of the queue.
pub open spec fn queued(m: Model, page: PageView) -> Model {
    Model { page_queue: m.page_queue.push(page), ..m }
}

/// What is wrong where no stream was found.
pub open spec fn streams_found(m: Model) -> Option<Error> {
    if m.streams.len() == 0 {
        Some(Error::NoLogicalStreams)
    } else {
        None
    }
}

/// The demuxer after the run of beginning-of-stream pages at the start: each
/// new stream is registered, and the pages, up to the first that begins no
/// stream, wait to be processed.
pub open spec fn bos_section(m: Model) -> (Model, Option<Error>)
    decreases m.input.len() - m.pos,
    when m.input.len() <= usize::MAX
    via bos_section_ends
{
    match reader::after_read(m) {
        (after, None) => (after, streams_found(after)),
        (after, Some(page)) => if !page.is_first() {
            (queued(after, page), streams_found(after))
        } else if after.knows(page.serial) {
            bos_section(queued(after, page))
        } else {
            match register::registered(process::next_link(after, page.offset), page) {
                (with, None) => bos_section(queued(with, page)),
                (with, Some(e)) => (with, Some(e)),
            }
        },
    }
}

#[via_fn]
proof fn bos_section_ends(m: Model) {
    reader::reading_advances(m);
}

/// The next page: the first that waits, or else one read.
pub open spec fn took_page(m: Model) -> (Model, Option<PageView>) {
    if m.page_queue.len() > 0 {
        (Model { page_queue: m.page_queue.skip(1), ..m }, Some(m.page_queue[0]))
    } else {
        reader::after_read(m)
    }
}

/// Whether a stream still awaits headers, or the Skeleton its end.
pub open spec fn awaits_headers(m: Model) -> bool {
    ||| exists|i: int| 0 <= i < m.states.len() && (#[trigger] m.states[i]).headers_remaining > 0
    ||| m.skel.skeleton is Some && !m.skel.ended
}

/// The demuxer after it has processed pages until every header has come, the
/// input has ended or `budget` pages are used up.
pub open spec fn headers_collected(m: Model, budget: int) -> (Model, Option<Error>)
    decreases budget,
{
    if budget <= 0 || !awaits_headers(m) {
        (m, None)
    } else {
        match took_page(m) {
            (after, None) => (after, None),
            (after, Some(page)) => match process::processed(after, page) {
                (done, Some(e)) => (done, Some(e)),
                (done, None) => headers_collected(done, budget - 1),
            },
        }
    }
}

/// Every stream with the setup bytes that its headers give.
pub open spec fn with_extradata(m: Model) -> Model {
    Model {
        streams: Seq::new(
            m.streams.len(),
            |i: int| process::with_private(m.streams[i], m.states[i].header_packets),
        ),
        ..m
    }
}

/// The demuxer with the tags that the first `n` streams still owe added.
pub open spec fn with_tags_of(m: Model, n: int) -> Model
    decreases n,
{
    if n <= 0 {
        m
    } else {
        process::with_tags(with_tags_of(m, n - 1), n - 1)
    }
}

/// The demuxer with the tags that every stream still owes added.
pub open spec fn with_metadata(m: Model) -> Model {
    with_tags_of(m, m.streams.len() as int)
}

/// The demuxer once opened, or what is wrong with the input.
pub open spec fn opened(m: Model) -> (Model, Option<Error>) {
    match bos_section(m) {
        (after, Some(e)) => (after, Some(e)),
        (after, None) => match headers_collected(after, HEADER_SECTION_MAX_PAGES as int) {
            (done, Some(e)) => (done, Some(e)),
            (done, None) => (with_metadata(with_extradata(done)), None),
        },
    }
}

/// The demuxer after delivering a packet, and the packet: the first that
/// waits, or else the first that further pages complete.
pub open spec fn delivered(m: Model) -> (Model, Result<PacketView, Error>)
    decreases
            m.page_queue.len() + if m.pos < m.input.len() {
                m.input.len() - m.pos
            } else {
                0
            },
    when m.wf()
    via delivered_ends
{
    if m.out_queue.len() > 0 {
        (Model { out_queue: m.out_queue.skip(1), ..m }, Ok(m.out_queue[0]))
    } else {
        match took_page(m) {
            (after, None) => (after, Err(Error::Eof)),
            (after, Some(page)) => match process::processed(after, page) {
                (done, Some(e)) => (done, Err(e)),
                (done, None) => delivered(done),
            },
        }
    }
}

#[via_fn]
proof fn delivered_ends(m: Model) {
    reader::reading_advances(m);
    taking_keeps_wf(m);
    if let (after, Some(page)) = took_page(m) {
        process::processing_keeps_wf(after, page);
    }
}

/// Taking a page keeps the demuxer sound.
pub proof fn taking_keeps_wf(m: Model)
    requires
        m.wf(),
    ensures
        took_page(m).0.wf(),
        took_page(m).1 matches Some(page) ==> page.wf(),
{
    reader::reading_moves_forward(m);
    let after = took_page(m).0;
    assert forall|i: int| 0 <= i < after.page_queue.len() implies (
    #[trigger] after.page_queue[i]).wf() by {
        if m.page_queue.len() > 0 {
            assert(m.page_queue[i + 1].wf());
        } else {
            assert(m.page_queue[i].wf());
        }
    }
    if m.page_queue.len() > 0 {
        assert(m.page_queue[0].wf());
    }
}

/// Queueing a page keeps the demuxer sound.
pub proof fn queueing_keeps_wf(m: Model, page: PageView)
    requires
        m.wf(),
        page.wf(),
    ensures
        queued(m, page).wf(),
{
    let after = queued(m, page);
    assert forall|i: int| 0 <= i < after.page_queue.len() implies (
    #[trigger] after.page_queue[i]).wf() by {
        if i < m.page_queue.len() {
            assert(m.page_queue[i].wf());
        }
    }
    assert(after.skeleton_serial() == m.skeleton_serial());
}

impl OggDemuxer {
    fn queue_page(&mut self, page: Page)
        requires
            old(self).wf(),
            page@.wf(),
        ensures
            final(self).wf(),
            final(self)@ == queued(old(self)@, page@),
    {
        let ghost before = self@;
        self.page_queue.push_back(page);
        proof {
            assert(self@.page_queue =~= before.page_queue.push(page@));
            assert(self@ =~= queued(before, page@));
            queueing_keeps_wf(before, page@);
        }
    }

    /// Read the run of beginning-of-stream pages at the start and register
    /// the streams that they begin.
    pub fn read_bos_section(&mut self) -> (r: Result<(), Error>)
        requires
            old(self).wf(),
        ensures
            final(self).wf(),
            final(self)@ == bos_section(old(self)@).0,
            (match r {
                Ok(()) => None,
                Err(e) => Some(e),
            }) == bos_section(old(self)@).1,
    {
        loop
            invariant_except_break
                self.wf(),
                bos_section(old(self)@) == bos_section(self@),
            ensures
                self.wf(),
                bos_section(old(self)@) == (self@, streams_found(self@)),
            decreases self@.input.len() + 1 - self@.pos,
        {
            proof {
                reader::reading_advances(self@);
            }
            let page: Page = match self.read_page() {
                Some(page) => page,
                None => {
                    break;
                },
            };
            let is_bos: bool = page.is_first();
            if is_bos && self.find_state(page.serial).is_none() {
                self.begin_next_link(page.offset);
                match self.register_stream(&page) {
                    Ok(()) => {},
                    Err(e) => {
                        return Err(e);
                    },
                }
            }
            self.queue_page(page);
            if !is_bos {
                break;
            }
        }
        if self.streams.len() == 0 {
            return Err(Error::NoLogicalStreams);
        }
        Ok(())
    }

    fn take_page(&mut self) -> (r: Option<Page>)
        requires
            old(self).wf(),
        ensures
            final(self).wf(),
            final(self)@ == took_page(old(self)@).0,
            (match r {
                Some(page) => Some(page@),
                None => None,
            }) == took_page(old(self)@).1,
            r matches Some(page) ==> page@.wf(),
    {
        let ghost before = self@;
        proof {
            taking_keeps_wf(before);
        }
        match self.page_queue.pop_front() {
            Some(page) => {
                proof {
                    assert(page@ == before.page_queue[0]);
                    assert(self@.page_queue =~= before.page_queue.skip(1));
                    assert(self@ =~= took_page(before).0);
                }
                Some(page)
            },
            None => {
                assert(self@ =~= before);
                self.read_page()
            },
        }
    }

    fn still_awaits_headers(&self) -> (r: bool)
        ensures
            r == awaits_headers(self@),
    {
        let mut i: usize = 0;
        while i < self.states.len()
            invariant
                i <= self.states@.len(),
                forall|j: int|
                    0 <= j < i ==> (#[trigger] self@.states[j]).headers_remaining == 0,
            decreases self.states@.len() - i,
        {
            assert(self@.states[i as int] == self.states@[i as int]@);
            if self.states[i].headers_remaining > 0 {
                return true;
            }
            i = i + 1;
        }
        self.skel.skeleton.is_some() && !self.skel.ended
    }

    /// Process pages until every header has come.
    pub fn read_until_headers_collected(&mut self) -> (r: Result<(), Error>)
        requires
            old(self).wf(),
        ensures
            final(self).wf(),
            final(self)@ == headers_collected(old(self)@, HEADER_SECTION_MAX_PAGES as int).0,
            (match r {
                Ok(()) => None,
                Err(e) => Some(e),
            }) == headers_collected(old(self)@, HEADER_SECTION_MAX_PAGES as int).1,
    {
        let mut budget: usize = HEADER_SECTION_MAX_PAGES;
        while budget > 0
            invariant
                self.wf(),
                headers_collected(old(self)@, HEADER_SECTION_MAX_PAGES as int)
                    == headers_collected(self@, budget as int),
            decreases budget,
        {
            if !self.still_awaits_headers() {
                return Ok(());
            }
            let page: Page = match self.take_page() {
                Some(page) => page,
                None => {
                    return Ok(());
                },
            };
            match self.process_page(page) {
                Ok(()) => {},
                Err(e) => {
                    return Err(e);
                },
            }
            budget = budget - 1;
        }
        Ok(())
    }

    /// Build the setup bytes of every stream from its headers.
    pub fn populate_extradata(&mut self)
        requires
            old(self).wf(),
        ensures
            final(self).wf(),
            final(self)@ == with_extradata(old(self)@),
    {
        let ghost before = self@;
        let ghost all = with_extradata(before).streams;
        let n: usize = self.states.len();
        let mut i: usize = 0;
        while i < n
            invariant
                i <= n,
                n == before.streams.len(),
                n == before.states.len(),
                self.wf(),
                all == with_extradata(before).streams,
                self@ == (Model { streams: self@.streams, ..before }),
                self@.streams.len() == n,
                forall|j: int| 0 <= j < i ==> #[trigger] self@.streams[j] == all[j],
                forall|j: int| i <= j < n ==> #[trigger] self@.streams[j] == before.streams[j],
            decreases n - i,
        {
            let ghost mid = self@.streams;
            self.populate_extradata_for(i);
            proof {
                assert(mid[i as int] == before.streams[i as int]);
                assert forall|j: int| 0 <= j < i + 1 implies #[trigger] self@.streams[j] == all[j] by {
                    if j < i {
                        assert(mid[j] == all[j]);
                    }
                }
                assert forall|j: int| i + 1 <= j < n implies #[trigger] self@.streams[j]
                    == before.streams[j] by {
                    assert(mid[j] == before.streams[j]);
                }
            }
            i = i + 1;
        }
        assert(self@.streams =~= all);
        assert(self@ =~= with_extradata(before));
    }

    /// Add the tags of every stream, unless they have been added.
    pub fn populate_metadata(&mut self)
        requires
            old(self).wf(),
        ensures
            final(self).wf(),
            final(self)@ == with_metadata(old(self)@),
    {
        let ghost before = self@;
        let n: usize = self.streams.len();
        let mut i: usize = 0;
        while i < n
            invariant
                i <= n,
                n == before.streams.len(),
                n == self@.streams.len(),
                self.wf(),
                self@ == with_tags_of(before, i as int),
            decreases n - i,
        {
            self.populate_metadata_for(i);
            i = i + 1;
        }
    }

    /// Read the streams and their headers.
    pub fn init(&mut self) -> (r: Result<(), Error>)
        requires
            old(self).wf(),
        ensures
            final(self).wf(),
            final(self)@ == opened(old(self)@).0,
            (match r {
                Ok(()) => None,
                Err(e) => Some(e),
            }) == opened(old(self)@).1,
    {
        match self.read_bos_section() {
            Ok(()) => {},
            Err(e) => {
                return Err(e);
            },
        }
        match self.read_until_headers_collected() {
            Ok(()) => {},
            Err(e) => {
                return Err(e);
            },
        }
        self.populate_extradata();
        self.populate_metadata();
        Ok(())
    }

    /// The next packet of any stream; `Eof` where none is left.
    pub fn next_packet(&mut self) -> (r: Result<Packet, Error>)
        requires
            old(self).wf(),
        ensures
            final(self).wf(),
            final(self)@ == delivered(old(self)@).0,
            (match r {
                Ok(p) => Ok(p@),
                Err(e) => Err(e),
            }) == delivered(old(self)@).1,
    {
        loop
            invariant
                self.wf(),
                delivered(old(self)@) == delivered(self@),
            decreases
                    self@.page_queue.len() + if self@.pos < self@.input.len() {
                        self@.input.len() - self@.pos
                    } else {
                        0
                    },
        {
            let ghost before = self@;
            if let Some(packet) = self.out_queue.pop_front() {
                proof {
                    assert(packet@ == before.out_queue[0]);
                    assert(self@.out_queue =~= before.out_queue.skip(1));
                    assert(self@ =~= Model { out_queue: before.out_queue.skip(1), ..before });
                }
                return Ok(packet);
            }
            assert(self@ =~= before);
            proof {
                taking_keeps_wf(before);
                reader::reading_advances(before);
            }
            let page: Page = match self.take_page() {
                Some(page) => page,
                None => {
                    return Err(Error::Eof);
                },
            };
            proof {
                process::processing_keeps_wf(self@, page@);
            }
            match self.process_page(page) {
                Ok(()) => {},
                Err(e) => {
                    return Err(e);
                },
            }
        }
    }
}

/// Open the physical bitstream `input`, reading from `pos` on, with what the
/// codec registry said of first packets.
pub fn open_concrete(input: Vec<u8>, pos: u64, answers: Vec<(Vec<u8>, CodecId)>) -> (r: Result<
    OggDemuxer,
    Error,
>)
    ensures
        match r {
            Ok(d) => {
                &&& d.wf()
                &&& opened(demux::fresh(input@, pos, demux::answer_views(answers@))) == (
                    d@,
                    None::<Error>,
                )
            },
            Err(e) => opened(demux::fresh(input@, pos, demux::answer_views(answers@))).1 == Some(e),
        },
{
    let mut d = OggDemuxer::new(input, pos, answers);
    match d.init() {
        Ok(()) => Ok(d),
        Err(e) => Err(e),
    }
}

} // verus!
