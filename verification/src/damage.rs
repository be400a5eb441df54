//! Damage met while reading: what kinds there are, and the bounded list of
//! what happened where.
use crate::text;
use vstd::prelude::*;
use vstd::string::*;

verus! {

/// How many events are kept. Damage beyond it is counted, not kept.
pub const MAX_DAMAGE_EVENTS: usize = 64;

/// What was wrong.
#[non_exhaustive]
#[derive(Clone, Copy, Debug, PartialEq, Eq, Hash, Structural)]
pub enum DamageKind {
    /// Pages are missing: a sequence number is not the one after the last.
    Hole,
    /// A `continued` bit that contradicts what is pending, within a run whose
    /// sequence numbers agree.
    FramingError,
    /// Bytes that are no page were skipped.
    Resync,
    /// A second beginning-of-stream page for a serial number in use.
    DuplicateSerial,
    /// The input ends inside a page.
    TruncatedTail,
}

/// One piece of damage.
#[derive(Clone, Copy, Debug, PartialEq, Eq, Structural)]
pub struct DamageEvent {
    pub kind: DamageKind,
    /// Where it was, when known: the page resumed at after a resync, or the
    /// incomplete page of a truncated tail.
    pub byte_offset: Option<u64>,
    /// The logical bitstream concerned, when there is one.
    pub serial: Option<u32>,
    /// Sequence number of the page on which it was noticed.
    pub page_seq: Option<u32>,
}

/// The name of a kind of damage.
pub open spec fn kind_name(kind: DamageKind) -> Seq<char> {
    match kind {
        DamageKind::Hole => "hole"@,
        DamageKind::FramingError => "framing-error"@,
        DamageKind::Resync => "resync"@,
        DamageKind::DuplicateSerial => "duplicate-serial"@,
        DamageKind::TruncatedTail => "truncated-tail"@,
    }
}

impl DamageKind {
    /// The name of this kind of damage.
    pub fn name(&self) -> (r: &'static str)
        ensures
            r@ == kind_name(*self),
    {
        match self {
            DamageKind::Hole => "hole",
            DamageKind::FramingError => "framing-error",
            DamageKind::Resync => "resync",
            DamageKind::DuplicateSerial => "duplicate-serial",
            DamageKind::TruncatedTail => "truncated-tail",
        }
    }
}

/// One line about an event: its name, and what is known of its place.
pub open spec fn event_text(e: DamageEvent) -> Seq<char> {
    let place = match e.byte_offset {
        Some(off) => " @ byte "@ + text::decimal(off as nat),
        None => Seq::empty(),
    };
    let owner = match e.serial {
        Some(s) => " (serial 0x"@ + text::hex(s as nat, 8, false) + ")"@,
        None => Seq::empty(),
    };
    let page = match e.page_seq {
        Some(s) => " (page seq "@ + text::decimal(s as nat) + ")"@,
        None => Seq::empty(),
    };
    kind_name(e.kind) + place + owner + page
}

impl DamageEvent {
    /// One line about this event.
    pub fn to_text(&self) -> (r: String)
        ensures
            r@ == event_text(*self),
    {
        let mut out: String = String::from_str(self.kind.name());
        if let Some(off) = self.byte_offset {
            out.append(" @ byte ");
            text::push_decimal(&mut out, off);
        }
        let ghost a = out@;
        assert(a =~= kind_name(self.kind) + (match self.byte_offset {
            Some(off) => " @ byte "@ + text::decimal(off as nat),
            None => Seq::empty(),
        }));
        if let Some(s) = self.serial {
            out.append(" (serial 0x");
            text::push_hex(&mut out, s as u64, 8, false);
            out.append(")");
        }
        let ghost b = out@;
        assert(b =~= a + (match self.serial {
            Some(s) => " (serial 0x"@ + text::hex(s as nat, 8, false) + ")"@,
            None => Seq::empty(),
        }));
        if let Some(s) = self.page_seq {
            out.append(" (page seq ");
            text::push_decimal(&mut out, s as u64);
            out.append(")");
        }
        assert(out@ =~= b + (match self.page_seq {
            Some(s) => " (page seq "@ + text::decimal(s as nat) + ")"@,
            None => Seq::empty(),
        }));
        out
    }
}

/// The kept events after one more.
pub open spec fn kept(events: Seq<DamageEvent>, e: DamageEvent) -> Seq<DamageEvent> {
    if events.len() < MAX_DAMAGE_EVENTS {
        events.push(e)
    } else {
        events
    }
}

/// Count one event, and keep it while there is room.
pub fn record_damage(
    events: &mut Vec<DamageEvent>,
    total: &mut u64,
    kind: DamageKind,
    byte_offset: Option<u64>,
    serial: Option<u32>,
    page_seq: Option<u32>,
)
    ensures
        *final(total) == (*old(total)).saturating_add(1),
        final(events)@ == kept(
            old(events)@,
            DamageEvent { kind, byte_offset, serial, page_seq },
        ),
{
    *total = total.saturating_add(1);
    if events.len() < MAX_DAMAGE_EVENTS {
        events.push(DamageEvent { kind, byte_offset, serial, page_seq });
    }
}

/// Counters and kept events, as values.
#[verifier::ext_equal]
pub struct LedgerView {
    pub holes: u64,
    pub framing_errors: u64,
    pub resyncs: u64,
    pub duplicate_serials: u64,
    pub events: Seq<DamageEvent>,
    pub total: u64,
}

/// How many of `events` are of one kind.
pub open spec fn count_of(events: Seq<DamageEvent>, kind: DamageKind) -> int
    decreases events.len(),
{
    if events.len() == 0 {
        0
    } else {
        count_of(events.drop_last(), kind) + if events.last().kind == kind {
            1int
        } else {
            0
        }
    }
}

/// Whether no counter goes with each event of a kind.
pub open spec fn is_uncounted(kind: DamageKind) -> bool {
    kind is DuplicateSerial || kind is TruncatedTail
}

impl LedgerView {
    /// The events kept are the first ones seen, and while all are kept there
    /// are as many of each kind as the counters say.
    pub open spec fn wf(self) -> bool {
        &&& self.events.len() == if self.total < MAX_DAMAGE_EVENTS {
            self.total as int
        } else {
            MAX_DAMAGE_EVENTS as int
        }
        &&& self.total <= MAX_DAMAGE_EVENTS ==> {
            &&& count_of(self.events, DamageKind::Hole) == self.holes
            &&& count_of(self.events, DamageKind::FramingError) == self.framing_errors
            &&& count_of(self.events, DamageKind::Resync) == self.resyncs
        }
    }

    /// One more event.
    pub open spec fn noted(
        self,
        kind: DamageKind,
        byte_offset: Option<u64>,
        serial: Option<u32>,
        page_seq: Option<u32>,
    ) -> LedgerView {
        LedgerView {
            events: kept(self.events, DamageEvent { kind, byte_offset, serial, page_seq }),
            total: self.total.saturating_add(1),
            ..self
        }
    }

    /// One more hole, seen on page `page_seq` of `serial`.
    pub open spec fn with_hole(self, serial: u32, page_seq: u32) -> LedgerView {
        LedgerView {
            holes: self.holes.saturating_add(1),
            ..self.noted(DamageKind::Hole, None, Some(serial), Some(page_seq))
        }
    }

    /// One more framing error, seen on page `page_seq` of `serial`.
    pub open spec fn with_framing_error(self, serial: u32, page_seq: u32) -> LedgerView {
        LedgerView {
            framing_errors: self.framing_errors.saturating_add(1),
            ..self.noted(DamageKind::FramingError, None, Some(serial), Some(page_seq))
        }
    }

    /// One more serial number used twice.
    pub open spec fn with_duplicate(self, serial: u32, page_seq: u32) -> LedgerView {
        LedgerView {
            duplicate_serials: self.duplicate_serials.saturating_add(1),
            ..self.noted(DamageKind::DuplicateSerial, None, Some(serial), Some(page_seq))
        }
    }

    /// With this many serial numbers used twice.
    pub open spec fn with_duplicate_count(self, n: u64) -> LedgerView {
        LedgerView { duplicate_serials: n, ..self }
    }

    /// One more resync, resumed at the page at `off`.
    pub open spec fn with_resync(self, off: u64, serial: u32, page_seq: u32) -> LedgerView {
        LedgerView {
            resyncs: self.resyncs.saturating_add(1),
            ..self.noted(DamageKind::Resync, Some(off), Some(serial), Some(page_seq))
        }
    }
}

/// Counters of damage and the kept events.
#[derive(Debug)]
pub struct Ledger {
    pub holes: u64,
    pub framing_errors: u64,
    pub resyncs: u64,
    pub duplicate_serials: u64,
    pub events: Vec<DamageEvent>,
    pub total: u64,
}

impl View for Ledger {
    type V = LedgerView;

    open spec fn view(&self) -> LedgerView {
        LedgerView {
            holes: self.holes,
            framing_errors: self.framing_errors,
            resyncs: self.resyncs,
            duplicate_serials: self.duplicate_serials,
            events: self.events@,
            total: self.total,
        }
    }
}

/// A ledger with nothing in it.
pub open spec fn empty_ledger() -> LedgerView {
    LedgerView {
        holes: 0,
        framing_errors: 0,
        resyncs: 0,
        duplicate_serials: 0,
        events: Seq::empty(),
        total: 0,
    }
}

impl Ledger {
    pub fn new() -> (r: Ledger)
        ensures
            r@ == empty_ledger(),
            r@.wf(),
    {
        Ledger {
            holes: 0,
            framing_errors: 0,
            resyncs: 0,
            duplicate_serials: 0,
            events: Vec::new(),
            total: 0,
        }
    }

    /// Note one event.
    pub fn push_damage(
        &mut self,
        kind: DamageKind,
        byte_offset: Option<u64>,
        serial: Option<u32>,
        page_seq: Option<u32>,
    )
        ensures
            final(self)@ == old(self)@.noted(kind, byte_offset, serial, page_seq),
            old(self)@.wf() && is_uncounted(kind) ==> final(self)@.wf(),
    {
        record_damage(&mut self.events, &mut self.total, kind, byte_offset, serial, page_seq);
        proof {
            if old(self)@.wf() {
                noting_counts(old(self)@, (DamageEvent { kind, byte_offset, serial, page_seq }));
            }
        }
    }

    pub fn note_hole(&mut self, serial: u32, page_seq: u32)
        ensures
            final(self)@ == old(self)@.with_hole(serial, page_seq),
            old(self)@.wf() ==> final(self)@.wf(),
    {
        self.holes = self.holes.saturating_add(1);
        self.push_damage(DamageKind::Hole, None, Some(serial), Some(page_seq));
        proof {
            if old(self)@.wf() {
                ledgers_stay_true(old(self)@, 0, serial, page_seq, 0);
            }
        }
    }

    pub fn note_framing_error(&mut self, serial: u32, page_seq: u32)
        ensures
            final(self)@ == old(self)@.with_framing_error(serial, page_seq),
            old(self)@.wf() ==> final(self)@.wf(),
    {
        self.framing_errors = self.framing_errors.saturating_add(1);
        self.push_damage(DamageKind::FramingError, None, Some(serial), Some(page_seq));
        proof {
            if old(self)@.wf() {
                ledgers_stay_true(old(self)@, 0, serial, page_seq, 0);
            }
        }
    }

    pub fn note_duplicate(&mut self, serial: u32, page_seq: u32)
        ensures
            final(self)@ == old(self)@.with_duplicate(serial, page_seq),
            old(self)@.wf() ==> final(self)@.wf(),
    {
        self.duplicate_serials = self.duplicate_serials.saturating_add(1);
        self.push_damage(DamageKind::DuplicateSerial, None, Some(serial), Some(page_seq));
        proof {
            if old(self)@.wf() {
                ledgers_stay_true(old(self)@, 0, serial, page_seq, 0);
            }
        }
    }

    pub fn note_resync(&mut self, off: u64, serial: u32, page_seq: u32)
        ensures
            final(self)@ == old(self)@.with_resync(off, serial, page_seq),
            old(self)@.wf() ==> final(self)@.wf(),
    {
        self.resyncs = self.resyncs.saturating_add(1);
        self.push_damage(DamageKind::Resync, Some(off), Some(serial), Some(page_seq));
        proof {
            if old(self)@.wf() {
                ledgers_stay_true(old(self)@, off, serial, page_seq, 0);
            }
        }
    }
}

/// While all events are kept, one more of a kind is one more of that kind.
pub proof fn noting_counts(l: LedgerView, e: DamageEvent)
    requires
        l.wf(),
    ensures
        ({
            let after = l.noted(e.kind, e.byte_offset, e.serial, e.page_seq);
            &&& l.events.len() <= MAX_DAMAGE_EVENTS
            &&& after.events.len() == if after.total < MAX_DAMAGE_EVENTS {
                after.total as int
            } else {
                MAX_DAMAGE_EVENTS as int
            }
            &&& after.total <= MAX_DAMAGE_EVENTS ==> forall|kind: DamageKind| #[trigger]
                count_of(after.events, kind) == count_of(l.events, kind) + if kind == e.kind {
                    1int
                } else {
                    0
                }
        }),
{
    if l.total < MAX_DAMAGE_EVENTS {
        assert(l.events.push(e).drop_last() =~= l.events);
    }
}

/// Until the list is full, as many events are kept as were seen; what was
/// kept stays kept.
pub proof fn kept_events_are_the_first(l: LedgerView, e: DamageEvent)
    requires
        l.wf(),
    ensures
        l.events.len() <= MAX_DAMAGE_EVENTS,
        l.total <= MAX_DAMAGE_EVENTS ==> l.events.len() == l.total,
        l.events.is_prefix_of(l.noted(e.kind, e.byte_offset, e.serial, e.page_seq).events),
{
}

proof fn count_fits(events: Seq<DamageEvent>, kind: DamageKind)
    ensures
        0 <= count_of(events, kind) <= events.len(),
    decreases events.len(),
{
    if events.len() > 0 {
        count_fits(events.drop_last(), kind);
    }
}

/// Noting damage keeps counters and kept events in agreement.
pub proof fn ledgers_stay_true(l: LedgerView, off: u64, serial: u32, page_seq: u32, n: u64)
    requires
        l.wf(),
    ensures
        l.with_hole(serial, page_seq).wf(),
        l.with_framing_error(serial, page_seq).wf(),
        l.with_duplicate(serial, page_seq).wf(),
        l.with_resync(off, serial, page_seq).wf(),
        l.with_duplicate_count(n).wf(),
{
    count_fits(l.events, DamageKind::Hole);
    count_fits(l.events, DamageKind::FramingError);
    count_fits(l.events, DamageKind::Resync);
    let at = Some(serial);
    let seq_no = Some(page_seq);
    noting_counts(
        l,
        DamageEvent {
            kind: DamageKind::Hole,
            byte_offset: None,
            serial: at,
            page_seq: seq_no,
        },
    );
    noting_counts(
        l,
        DamageEvent {
            kind: DamageKind::FramingError,
            byte_offset: None,
            serial: at,
            page_seq: seq_no,
        },
    );
    noting_counts(
        l,
        DamageEvent {
            kind: DamageKind::DuplicateSerial,
            byte_offset: None,
            serial: at,
            page_seq: seq_no,
        },
    );
    noting_counts(
        l,
        DamageEvent {
            kind: DamageKind::Resync,
            byte_offset: Some(off),
            serial: at,
            page_seq: seq_no,
        },
    );
}

} // verus!
