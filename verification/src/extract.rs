//! The page extractor.
//!
//! A small state machine consuming XML events.  The surrounding runtime pulls
//! events from the tokenizer and feeds them here one at a time, together with
//! the absolute byte position of the event's opening `<`; the machine yields
//! one [`PageRecord`] per revision whose text it sees, skips pages whose
//! namespace fails the filter, and stops at the first page whose opening tag
//! lies at or past the range's `end` offset — such a page belongs to the next
//! range's worker.
//!
//! The function [`spec_step`] is the machine's transition function; every
//! executable step is proved to follow it, and [`spec_run`] folds it over an
//! event sequence to say what a whole scan yields.

use vstd::prelude::*;

use crate::errors::Error;

verus! {

/// One event of the XML tokenizer: a start tag, an empty element, an end
/// tag (each carrying the tag name), a text run carrying unescaped content
/// octets, or the end of the input.
pub enum XmlEvent {
    Start(Vec<u8>),
    Empty(Vec<u8>),
    End(Vec<u8>),
    Text(Vec<u8>),
    Eof,
}

/// The mathematical value of an [`XmlEvent`].
pub enum EventView {
    Start(Seq<u8>),
    Empty(Seq<u8>),
    End(Seq<u8>),
    Text(Seq<u8>),
    Eof,
}

impl View for XmlEvent {
    type V = EventView;

    open spec fn view(&self) -> EventView {
        match self {
            XmlEvent::Start(n) => EventView::Start(n@),
            XmlEvent::Empty(n) => EventView::Empty(n@),
            XmlEvent::End(n) => EventView::End(n@),
            XmlEvent::Text(t) => EventView::Text(t@),
            XmlEvent::Eof => EventView::Eof,
        }
    }
}

/// One revision of one page: the page's title and namespace-filtered
/// provenance are resolved, the revision id is the first `<id>` of the
/// revision, and `text` carries the wikitext octets.
pub struct PageRecord {
    pub title: Vec<u8>,
    pub revision_id: Vec<u8>,
    pub text: Vec<u8>,
}

/// The mathematical value of a [`PageRecord`].
pub struct RecordView {
    pub title: Seq<u8>,
    pub revision_id: Seq<u8>,
    pub text: Seq<u8>,
}

impl View for PageRecord {
    type V = RecordView;

    open spec fn view(&self) -> RecordView {
        RecordView { title: self.title@, revision_id: self.revision_id@, text: self.text@ }
    }
}

/// Where the machine stands between events.
#[derive(Clone, Copy, PartialEq, Eq, Structural, Debug)]
pub enum ExtractorState {
    /// Before or between pages, skipping to the next `<page>`.
    OutsidePage,
    /// Inside a page, at element level.
    InPage,
    /// Inside a page whose namespace failed the filter, skipping to its end.
    SkippingPage,
    /// After `<title>`: the next event must be its text.
    ReadingTitle,
    /// After `<ns>` with a filter set: the next event must be its text.
    ReadingNs,
    /// Inside a revision, skipping to its first `<id>`; the revision's or
    /// the page's end returns to page level.
    SeekingRevisionId,
    /// After that `<id>`: the next event must be its text.
    ReadingRevisionId,
    /// Inside a revision, skipping to its `<text>`; the revision's or the
    /// page's end returns to page level.
    SeekingText,
    /// After a non-empty `<text>`: the next event must be its content.
    ReadingText,
    /// The scan is over: natural end of input, or the next page belongs to
    /// the next range.
    Done,
    /// An error was reported; no further events are consumed.
    Failed,
}

/// The extractor: its state, the page fields collected so far, the range's
/// `end` offset, and the optional namespace filter.
pub struct Extractor {
    pub state: ExtractorState,
    pub title: Vec<u8>,
    pub revision_id: Vec<u8>,
    pub end: u64,
    pub restrict_namespaces: Option<Vec<Vec<u8>>>,
}

/// The mathematical value of an [`Extractor`].
pub struct ExtractorView {
    pub state: ExtractorState,
    pub title: Seq<u8>,
    pub revision_id: Seq<u8>,
    pub end: int,
    pub filter: Option<Seq<Seq<u8>>>,
}

impl View for Extractor {
    type V = ExtractorView;

    open spec fn view(&self) -> ExtractorView {
        ExtractorView {
            state: self.state,
            title: self.title@,
            revision_id: self.revision_id@,
            end: self.end as int,
            filter: match self.restrict_namespaces {
                Some(f) => Some(f@.map_values(|v: Vec<u8>| v@)),
                None => None,
            },
        }
    }
}

/// How a worker reacts to one event.
pub enum StepOutcome {
    /// Keep feeding events.
    Continue,
    /// A revision is complete: format and flush it, then keep feeding.
    Record(PageRecord),
    /// The scan is over for this range; feed nothing more.
    Stop,
    /// The scan failed; feed nothing more.
    Failed(Error),
}

/// The errors a step can report, with the tag each one names.
pub enum StepError {
    /// End of input while the named tag was still being sought or read.
    UnexpectedEof(Seq<char>),
    /// Something other than text stood inside the named tag.
    OnlyTextExpected(Seq<char>),
    /// The named tag stood as an empty element where a start tag was needed.
    UnexpectedEmpty(Seq<char>),
}

/// What one transition of the machine does.
pub struct StepSpec {
    pub m: ExtractorView,
    pub emit: Option<RecordView>,
    pub stop: bool,
    pub error: Option<StepError>,
}

pub open spec fn tag_page() -> Seq<u8> {
    seq![112u8, 97u8, 103u8, 101u8]
}

pub open spec fn tag_title() -> Seq<u8> {
    seq![116u8, 105u8, 116u8, 108u8, 101u8]
}

pub open spec fn tag_ns() -> Seq<u8> {
    seq![110u8, 115u8]
}

pub open spec fn tag_revision() -> Seq<u8> {
    seq![114u8, 101u8, 118u8, 105u8, 115u8, 105u8, 111u8, 110u8]
}

pub open spec fn tag_id() -> Seq<u8> {
    seq![105u8, 100u8]
}

pub open spec fn tag_text() -> Seq<u8> {
    seq![116u8, 101u8, 120u8, 116u8]
}

/// The namespace value is one of the filter's entries.
pub open spec fn ns_allowed(filter: Seq<Seq<u8>>, val: Seq<u8>) -> bool {
    filter.contains(val)
}

/// A transition that only moves to `state`.
pub open spec fn step_to(m: ExtractorView, state: ExtractorState) -> StepSpec {
    StepSpec {
        m: ExtractorView { state, ..m },
        emit: None,
        stop: false,
        error: None,
    }
}

/// A transition that stops the scan.
pub open spec fn step_stop(m: ExtractorView) -> StepSpec {
    StepSpec {
        m: ExtractorView { state: ExtractorState::Done, ..m },
        emit: None,
        stop: true,
        error: None,
    }
}

/// A transition that fails the scan.
pub open spec fn step_fail(m: ExtractorView, e: StepError) -> StepSpec {
    StepSpec {
        m: ExtractorView { state: ExtractorState::Failed, ..m },
        emit: None,
        stop: false,
        error: Some(e),
    }
}

/// The machine's transition function: what one event does to the extractor,
/// which record it emits, and whether it stops or fails the scan.  `pos` is
/// the absolute byte position where the event's tag opens; it is read only
/// when a `<page>` starts, to decide page ownership against the range `end`.
pub open spec fn spec_step(m: ExtractorView, ev: EventView, pos: int) -> StepSpec {
    match m.state {
        ExtractorState::OutsidePage => match ev {
            EventView::Start(n) => if n == tag_page() {
                if pos >= m.end {
                    step_stop(m)
                } else {
                    step_to(m, ExtractorState::InPage)
                }
            } else {
                step_to(m, ExtractorState::OutsidePage)
            },
            EventView::Empty(n) => if n == tag_page() {
                step_fail(m, StepError::UnexpectedEmpty("page"@))
            } else {
                step_to(m, ExtractorState::OutsidePage)
            },
            EventView::Eof => step_stop(m),
            _ => step_to(m, ExtractorState::OutsidePage),
        },
        ExtractorState::InPage => match ev {
            EventView::Start(n) => if n == tag_title() {
                step_to(m, ExtractorState::ReadingTitle)
            } else if n == tag_ns() {
                if m.filter is Some {
                    step_to(m, ExtractorState::ReadingNs)
                } else {
                    step_to(m, ExtractorState::InPage)
                }
            } else if n == tag_revision() {
                step_to(m, ExtractorState::SeekingRevisionId)
            } else {
                step_to(m, ExtractorState::InPage)
            },
            EventView::End(n) => if n == tag_page() {
                step_to(m, ExtractorState::OutsidePage)
            } else {
                step_to(m, ExtractorState::InPage)
            },
            EventView::Eof => step_fail(m, StepError::UnexpectedEof("page"@)),
            _ => step_to(m, ExtractorState::InPage),
        },
        ExtractorState::SkippingPage => match ev {
            EventView::End(n) => if n == tag_page() {
                step_to(m, ExtractorState::OutsidePage)
            } else {
                step_to(m, ExtractorState::SkippingPage)
            },
            EventView::Eof => step_fail(m, StepError::UnexpectedEof("page"@)),
            _ => step_to(m, ExtractorState::SkippingPage),
        },
        ExtractorState::ReadingTitle => match ev {
            EventView::Text(t) => StepSpec {
                m: ExtractorView { state: ExtractorState::InPage, title: t, ..m },
                emit: None,
                stop: false,
                error: None,
            },
            EventView::Eof => step_fail(m, StepError::UnexpectedEof("title"@)),
            _ => step_fail(m, StepError::OnlyTextExpected("title"@)),
        },
        ExtractorState::ReadingNs => match ev {
            EventView::Text(t) => if (match m.filter {
                Some(f) => ns_allowed(f, t),
                None => true,
            }) {
                step_to(m, ExtractorState::InPage)
            } else {
                step_to(m, ExtractorState::SkippingPage)
            },
            EventView::Eof => step_fail(m, StepError::UnexpectedEof("ns"@)),
            _ => step_fail(m, StepError::OnlyTextExpected("ns"@)),
        },
        ExtractorState::SeekingRevisionId => match ev {
            EventView::Start(n) => if n == tag_id() {
                step_to(m, ExtractorState::ReadingRevisionId)
            } else {
                step_to(m, ExtractorState::SeekingRevisionId)
            },
            EventView::Empty(n) => if n == tag_id() {
                step_fail(m, StepError::UnexpectedEmpty("id"@))
            } else {
                step_to(m, ExtractorState::SeekingRevisionId)
            },
            EventView::End(n) => if n == tag_revision() {
                // a degenerate revision without an id yields nothing
                step_to(m, ExtractorState::InPage)
            } else if n == tag_page() {
                step_to(m, ExtractorState::OutsidePage)
            } else {
                step_to(m, ExtractorState::SeekingRevisionId)
            },
            EventView::Eof => step_fail(m, StepError::UnexpectedEof("id"@)),
            _ => step_to(m, ExtractorState::SeekingRevisionId),
        },
        ExtractorState::ReadingRevisionId => match ev {
            EventView::Text(t) => StepSpec {
                m: ExtractorView { state: ExtractorState::SeekingText, revision_id: t, ..m },
                emit: None,
                stop: false,
                error: None,
            },
            EventView::Eof => step_fail(m, StepError::UnexpectedEof("id"@)),
            _ => step_fail(m, StepError::OnlyTextExpected("id"@)),
        },
        ExtractorState::SeekingText => match ev {
            EventView::Start(n) => if n == tag_text() {
                step_to(m, ExtractorState::ReadingText)
            } else {
                step_to(m, ExtractorState::SeekingText)
            },
            EventView::Empty(n) => if n == tag_text() {
                // an empty text element yields no record for this revision
                step_to(m, ExtractorState::InPage)
            } else {
                step_to(m, ExtractorState::SeekingText)
            },
            EventView::End(n) => if n == tag_revision() {
                // a degenerate revision without a text yields nothing
                step_to(m, ExtractorState::InPage)
            } else if n == tag_page() {
                step_to(m, ExtractorState::OutsidePage)
            } else {
                step_to(m, ExtractorState::SeekingText)
            },
            EventView::Eof => step_fail(m, StepError::UnexpectedEof("text"@)),
            _ => step_to(m, ExtractorState::SeekingText),
        },
        ExtractorState::ReadingText => match ev {
            EventView::Text(t) => StepSpec {
                m: ExtractorView { state: ExtractorState::InPage, ..m },
                emit: Some(RecordView { title: m.title, revision_id: m.revision_id, text: t }),
                stop: false,
                error: None,
            },
            EventView::Eof => step_fail(m, StepError::UnexpectedEof("text"@)),
            _ => step_fail(m, StepError::OnlyTextExpected("text"@)),
        },
        ExtractorState::Done => StepSpec { m, emit: None, stop: true, error: None },
        ExtractorState::Failed => StepSpec { m, emit: None, stop: true, error: None },
    }
}

/// The executable error for a step error: the same variant and tag.
pub open spec fn error_matches(e: Error, se: StepError) -> bool {
    match se {
        StepError::UnexpectedEof(tag) => e is Xml && e->Xml_0@ == tag,
        StepError::OnlyTextExpected(tag) => e is OnlyTextExpectedInTag
            && e->OnlyTextExpectedInTag_0@ == tag,
        StepError::UnexpectedEmpty(tag) => e is UnexpectedEmptyTag
            && e->UnexpectedEmptyTag_0@ == tag,
    }
}

/// The outcome the worker sees agrees with what [`spec_step`] says.
pub open spec fn outcome_matches(r: StepOutcome, ss: StepSpec) -> bool {
    match r {
        StepOutcome::Continue => ss.emit is None && !ss.stop && ss.error is None,
        StepOutcome::Record(rec) => ss.emit == Some(rec@) && !ss.stop && ss.error is None,
        StepOutcome::Stop => ss.emit is None && ss.stop && ss.error is None,
        StepOutcome::Failed(e) => ss.error is Some && error_matches(e, ss.error->0),
    }
}

/// Two byte strings hold the same bytes.
pub fn bytes_equal(a: &Vec<u8>, b: &Vec<u8>) -> (r: bool)
    ensures
        r == (a@ == b@),
{
    let n = a.len();
    if n != b.len() {
        return false;
    }
    let mut i: usize = 0;
    while i < n
        invariant
            n == a@.len() == b@.len(),
            0 <= i <= n,
            forall|j: int| 0 <= j < i ==> a@[j] == b@[j],
        decreases n - i,
    {
        if a[i] != b[i] {
            return false;
        }
        i = i + 1;
    }
    proof {
        assert(a@ =~= b@);
    }
    true
}

fn is_tag_page(n: &Vec<u8>) -> (r: bool)
    ensures
        r == (n@ == tag_page()),
{
    let r = n.len() == 4 && n[0] == 112 && n[1] == 97 && n[2] == 103 && n[3] == 101;
    proof {
        if r {
            assert(n@ =~= tag_page());
        }
    }
    r
}

fn is_tag_title(n: &Vec<u8>) -> (r: bool)
    ensures
        r == (n@ == tag_title()),
{
    let r = n.len() == 5 && n[0] == 116 && n[1] == 105 && n[2] == 116 && n[3] == 108
        && n[4] == 101;
    proof {
        if r {
            assert(n@ =~= tag_title());
        }
    }
    r
}

fn is_tag_ns(n: &Vec<u8>) -> (r: bool)
    ensures
        r == (n@ == tag_ns()),
{
    let r = n.len() == 2 && n[0] == 110 && n[1] == 115;
    proof {
        if r {
            assert(n@ =~= tag_ns());
        }
    }
    r
}

fn is_tag_revision(n: &Vec<u8>) -> (r: bool)
    ensures
        r == (n@ == tag_revision()),
{
    let r = n.len() == 8 && n[0] == 114 && n[1] == 101 && n[2] == 118 && n[3] == 105
        && n[4] == 115 && n[5] == 105 && n[6] == 111 && n[7] == 110;
    proof {
        if r {
            assert(n@ =~= tag_revision());
        }
    }
    r
}

fn is_tag_id(n: &Vec<u8>) -> (r: bool)
    ensures
        r == (n@ == tag_id()),
{
    let r = n.len() == 2 && n[0] == 105 && n[1] == 100;
    proof {
        if r {
            assert(n@ =~= tag_id());
        }
    }
    r
}

fn is_tag_text(n: &Vec<u8>) -> (r: bool)
    ensures
        r == (n@ == tag_text()),
{
    let r = n.len() == 4 && n[0] == 116 && n[1] == 101 && n[2] == 120 && n[3] == 116;
    proof {
        if r {
            assert(n@ =~= tag_text());
        }
    }
    r
}

/// A fresh copy of a byte string.
fn copy_bytes(v: &Vec<u8>) -> (r: Vec<u8>)
    ensures
        r@ == v@,
{
    let mut r: Vec<u8> = Vec::new();
    let n = v.len();
    let mut i: usize = 0;
    while i < n
        invariant
            n == v@.len(),
            0 <= i <= n,
            r@ =~= v@.take(i as int),
        decreases n - i,
    {
        r.push(v[i]);
        proof {
            assert(r@ =~= v@.take(i + 1));
        }
        i = i + 1;
    }
    proof {
        assert(v@.take(n as int) =~= v@);
    }
    r
}

impl Extractor {
    /// A fresh extractor for one work range: its `end` offset and the
    /// namespace filter, positioned before some `<page>` start tag.
    pub fn new(end: u64, restrict_namespaces: Option<Vec<Vec<u8>>>) -> (r: Extractor)
        ensures
            r@.state == ExtractorState::OutsidePage,
            r@.title == Seq::<u8>::empty(),
            r@.revision_id == Seq::<u8>::empty(),
            r@.end == end as int,
            r@.filter == (match restrict_namespaces {
                Some(f) => Some(f@.map_values(|v: Vec<u8>| v@)),
                None => None::<Seq<Seq<u8>>>,
            }),
    {
        Extractor {
            state: ExtractorState::OutsidePage,
            title: Vec::new(),
            revision_id: Vec::new(),
            end,
            restrict_namespaces,
        }
    }

    /// Is the namespace value in the filter?  Reads the filter, which must be
    /// present.
    fn ns_in_filter(&self, val: &Vec<u8>) -> (r: bool)
        requires
            self@.filter is Some,
        ensures
            r == ns_allowed(self@.filter->0, val@),
    {
        match &self.restrict_namespaces {
            Some(filter) => {
                let n = filter.len();
                let mut i: usize = 0;
                while i < n
                    invariant
                        self@.filter is Some,
                        n == self@.filter->0.len(),
                        n == filter@.len(),
                        forall|j: int| 0 <= j < n ==> self@.filter->0[j] == #[trigger] filter@[j]@,
                        0 <= i <= n,
                        forall|j: int| 0 <= j < i ==> self@.filter->0[j] != val@,
                    decreases n - i,
                {
                    if bytes_equal(&filter[i], val) {
                        return true;
                    }
                    i = i + 1;
                }
                proof {
                    if ns_allowed(self@.filter->0, val@) {
                        let w = choose|w: int| 0 <= w < self@.filter->0.len()
                            && self@.filter->0[w] == val@;
                        assert(false);
                    }
                }
                false
            },
            None => {
                proof {
                    assert(false);
                }
                false
            },
        }
    }

    /// Feeds one event to the machine.  `pos` is the absolute byte position
    /// where the event's tag opens.  The new state is exactly what
    /// [`spec_step`] says, and the outcome reports its emitted record, stop
    /// or error.
    pub fn step(&mut self, ev: XmlEvent, pos: u64) -> (r: StepOutcome)
        ensures
            final(self)@ == spec_step(old(self)@, ev@, pos as int).m,
            outcome_matches(r, spec_step(old(self)@, ev@, pos as int)),
    {
        match self.state {
            ExtractorState::OutsidePage => match ev {
                XmlEvent::Start(n) => {
                    if is_tag_page(&n) {
                        if pos >= self.end {
                            self.state = ExtractorState::Done;
                            StepOutcome::Stop
                        } else {
                            self.state = ExtractorState::InPage;
                            StepOutcome::Continue
                        }
                    } else {
                        StepOutcome::Continue
                    }
                },
                XmlEvent::Empty(n) => {
                    if is_tag_page(&n) {
                        self.state = ExtractorState::Failed;
                        StepOutcome::Failed(Error::UnexpectedEmptyTag(String::from_str("page")))
                    } else {
                        StepOutcome::Continue
                    }
                },
                XmlEvent::Eof => {
                    self.state = ExtractorState::Done;
                    StepOutcome::Stop
                },
                _ => StepOutcome::Continue,
            },
            ExtractorState::InPage => match ev {
                XmlEvent::Start(n) => {
                    if is_tag_title(&n) {
                        self.state = ExtractorState::ReadingTitle;
                        StepOutcome::Continue
                    } else if is_tag_ns(&n) {
                        if self.restrict_namespaces.is_some() {
                            self.state = ExtractorState::ReadingNs;
                        }
                        StepOutcome::Continue
                    } else if is_tag_revision(&n) {
                        self.state = ExtractorState::SeekingRevisionId;
                        StepOutcome::Continue
                    } else {
                        StepOutcome::Continue
                    }
                },
                XmlEvent::End(n) => {
                    if is_tag_page(&n) {
                        self.state = ExtractorState::OutsidePage;
                    }
                    StepOutcome::Continue
                },
                XmlEvent::Eof => {
                    self.state = ExtractorState::Failed;
                    StepOutcome::Failed(Error::Xml(String::from_str("page")))
                },
                _ => StepOutcome::Continue,
            },
            ExtractorState::SkippingPage => match ev {
                XmlEvent::End(n) => {
                    if is_tag_page(&n) {
                        self.state = ExtractorState::OutsidePage;
                    }
                    StepOutcome::Continue
                },
                XmlEvent::Eof => {
                    self.state = ExtractorState::Failed;
                    StepOutcome::Failed(Error::Xml(String::from_str("page")))
                },
                _ => StepOutcome::Continue,
            },
            ExtractorState::ReadingTitle => match ev {
                XmlEvent::Text(t) => {
                    self.title = t;
                    self.state = ExtractorState::InPage;
                    StepOutcome::Continue
                },
                XmlEvent::Eof => {
                    self.state = ExtractorState::Failed;
                    StepOutcome::Failed(Error::Xml(String::from_str("title")))
                },
                _ => {
                    self.state = ExtractorState::Failed;
                    StepOutcome::Failed(Error::OnlyTextExpectedInTag(String::from_str("title")))
                },
            },
            ExtractorState::ReadingNs => match ev {
                XmlEvent::Text(t) => {
                    let allowed = if self.restrict_namespaces.is_some() {
                        self.ns_in_filter(&t)
                    } else {
                        true
                    };
                    if allowed {
                        self.state = ExtractorState::InPage;
                    } else {
                        self.state = ExtractorState::SkippingPage;
                    }
                    StepOutcome::Continue
                },
                XmlEvent::Eof => {
                    self.state = ExtractorState::Failed;
                    StepOutcome::Failed(Error::Xml(String::from_str("ns")))
                },
                _ => {
                    self.state = ExtractorState::Failed;
                    StepOutcome::Failed(Error::OnlyTextExpectedInTag(String::from_str("ns")))
                },
            },
            ExtractorState::SeekingRevisionId => match ev {
                XmlEvent::Start(n) => {
                    if is_tag_id(&n) {
                        self.state = ExtractorState::ReadingRevisionId;
                    }
                    StepOutcome::Continue
                },
                XmlEvent::Empty(n) => {
                    if is_tag_id(&n) {
                        self.state = ExtractorState::Failed;
                        StepOutcome::Failed(Error::UnexpectedEmptyTag(String::from_str("id")))
                    } else {
                        StepOutcome::Continue
                    }
                },
                XmlEvent::End(n) => {
                    if is_tag_revision(&n) {
                        self.state = ExtractorState::InPage;
                    } else if is_tag_page(&n) {
                        self.state = ExtractorState::OutsidePage;
                    }
                    StepOutcome::Continue
                },
                XmlEvent::Eof => {
                    self.state = ExtractorState::Failed;
                    StepOutcome::Failed(Error::Xml(String::from_str("id")))
                },
                _ => StepOutcome::Continue,
            },
            ExtractorState::ReadingRevisionId => match ev {
                XmlEvent::Text(t) => {
                    self.revision_id = t;
                    self.state = ExtractorState::SeekingText;
                    StepOutcome::Continue
                },
                XmlEvent::Eof => {
                    self.state = ExtractorState::Failed;
                    StepOutcome::Failed(Error::Xml(String::from_str("id")))
                },
                _ => {
                    self.state = ExtractorState::Failed;
                    StepOutcome::Failed(Error::OnlyTextExpectedInTag(String::from_str("id")))
                },
            },
            ExtractorState::SeekingText => match ev {
                XmlEvent::Start(n) => {
                    if is_tag_text(&n) {
                        self.state = ExtractorState::ReadingText;
                    }
                    StepOutcome::Continue
                },
                XmlEvent::Empty(n) => {
                    if is_tag_text(&n) {
                        self.state = ExtractorState::InPage;
                    }
                    StepOutcome::Continue
                },
                XmlEvent::End(n) => {
                    if is_tag_revision(&n) {
                        self.state = ExtractorState::InPage;
                    } else if is_tag_page(&n) {
                        self.state = ExtractorState::OutsidePage;
                    }
                    StepOutcome::Continue
                },
                XmlEvent::Eof => {
                    self.state = ExtractorState::Failed;
                    StepOutcome::Failed(Error::Xml(String::from_str("text")))
                },
                _ => StepOutcome::Continue,
            },
            ExtractorState::ReadingText => match ev {
                XmlEvent::Text(t) => {
                    self.state = ExtractorState::InPage;
                    let rec = PageRecord {
                        title: copy_bytes(&self.title),
                        revision_id: copy_bytes(&self.revision_id),
                        text: t,
                    };
                    StepOutcome::Record(rec)
                },
                XmlEvent::Eof => {
                    self.state = ExtractorState::Failed;
                    StepOutcome::Failed(Error::Xml(String::from_str("text")))
                },
                _ => {
                    self.state = ExtractorState::Failed;
                    StepOutcome::Failed(Error::OnlyTextExpectedInTag(String::from_str("text")))
                },
            },
            ExtractorState::Done => StepOutcome::Stop,
            ExtractorState::Failed => StepOutcome::Stop,
        }
    }
}

/// What a whole scan yields: the machine's final value, the records emitted
/// in order, whether it stopped early, and the first error if one was
/// reported (after which nothing more is consumed).
pub struct RunSpec {
    pub m: ExtractorView,
    pub records: Seq<RecordView>,
    pub stopped: bool,
    pub error: Option<StepError>,
}

/// Folds [`spec_step`] over an event sequence, collecting the emitted
/// records until the machine stops, fails, or the events run out.
pub open spec fn spec_run(m: ExtractorView, evs: Seq<(EventView, int)>) -> RunSpec
    decreases evs.len(),
{
    if evs.len() == 0 {
        RunSpec { m, records: Seq::empty(), stopped: false, error: None }
    } else {
        let ss = spec_step(m, evs[0].0, evs[0].1);
        if ss.error is Some {
            RunSpec { m: ss.m, records: Seq::empty(), stopped: false, error: ss.error }
        } else if ss.stop {
            RunSpec { m: ss.m, records: Seq::empty(), stopped: true, error: None }
        } else {
            let rest = spec_run(ss.m, evs.drop_first());
            RunSpec {
                m: rest.m,
                records: (match ss.emit {
                    Some(r) => seq![r],
                    None => Seq::empty(),
                }) + rest.records,
                stopped: rest.stopped,
                error: rest.error,
            }
        }
    }
}

/// The events of a scan, paired with the absolute byte positions at which
/// their tags open.
pub open spec fn zip_events(evs: Seq<XmlEvent>, ps: Seq<u64>) -> Seq<(EventView, int)> {
    Seq::new(evs.len(), |i: int| (evs[i]@, ps[i] as int))
}

/// The filter as the machine's view sees it.
pub open spec fn spec_filter_view(f: Option<Vec<Vec<u8>>>) -> Option<Seq<Seq<u8>>> {
    match f {
        Some(v) => Some(v@.map_values(|x: Vec<u8>| x@)),
        None => None,
    }
}

/// A machine at the start of a range: before some page, nothing collected.
pub open spec fn initial_extractor(end: int, filter: Option<Seq<Seq<u8>>>) -> ExtractorView {
    ExtractorView {
        state: ExtractorState::OutsidePage,
        title: Seq::empty(),
        revision_id: Seq::empty(),
        end,
        filter,
    }
}


/// The mathematical values of a record list.
pub open spec fn record_views(rs: Seq<PageRecord>) -> Seq<RecordView> {
    rs.map_values(|p: PageRecord| p@)
}

/// A fresh copy of one event.
fn clone_event(ev: &XmlEvent) -> (r: XmlEvent)
    ensures
        r@ == ev@,
{
    match ev {
        XmlEvent::Start(n) => XmlEvent::Start(copy_bytes(n)),
        XmlEvent::Empty(n) => XmlEvent::Empty(copy_bytes(n)),
        XmlEvent::End(n) => XmlEvent::End(copy_bytes(n)),
        XmlEvent::Text(t) => XmlEvent::Text(copy_bytes(t)),
        XmlEvent::Eof => XmlEvent::Eof,
    }
}

/// Runs the extractor over a whole event list whose `i`-th event opens at
/// byte position `positions[i]`: yields the records of [`spec_run`] in
/// order, or its first error.
pub fn run_extractor(
    events: &Vec<XmlEvent>,
    positions: &Vec<u64>,
    end: u64,
    restrict_namespaces: Option<Vec<Vec<u8>>>,
) -> (r: Result<Vec<PageRecord>, Error>)
    requires
        events@.len() == positions@.len(),
    ensures
        ({
            let rr = spec_run(
                initial_extractor(end as int, spec_filter_view(restrict_namespaces)),
                zip_events(events@, positions@),
            );
            match r {
                Result::Ok(recs) => rr.error is None
                    && record_views(recs@) == rr.records,
                Result::Err(e) => rr.error is Some && error_matches(e, rr.error->0),
            }
        }),
{
    let ghost m0 = initial_extractor(end as int, spec_filter_view(restrict_namespaces));
    let ghost zipped = zip_events(events@, positions@);
    let ghost full = spec_run(m0, zipped);
    let mut ex = Extractor::new(end, restrict_namespaces);
    let mut recs: Vec<PageRecord> = Vec::new();
    let n = events.len();
    let mut i: usize = 0;
    proof {
        assert(ex@ == m0);
        assert(zipped.skip(0) =~= zipped);
    }
    while i < n
        invariant
            n == events@.len() == positions@.len(),
            0 <= i <= n,
            zipped == zip_events(events@, positions@),
            m0 == initial_extractor(end as int, spec_filter_view(restrict_namespaces)),
            full == spec_run(m0, zipped),
            full.records == record_views(recs@)
                + spec_run(ex@, zipped.skip(i as int)).records,
            full.error == spec_run(ex@, zipped.skip(i as int)).error,
            full.stopped == spec_run(ex@, zipped.skip(i as int)).stopped,
        decreases n - i,
    {
        let ghost m_before = ex@;
        let ghost rest = zipped.skip(i as int);
        let ev = clone_event(&events[i]);
        let pos = positions[i];
        proof {
            assert(rest.len() > 0);
            assert(rest[0] == (events@[i as int]@, positions@[i as int] as int));
            assert(rest[0].0 == ev@ && rest[0].1 == pos as int);
            assert(rest.drop_first() =~= zipped.skip(i + 1));
        }
        let outcome = ex.step(ev, pos);
        match outcome {
            StepOutcome::Continue => {
                proof {
                    assert(spec_run(m_before, rest).records
                        =~= spec_run(ex@, zipped.skip(i + 1)).records);
                }
            },
            StepOutcome::Record(rec) => {
                let ghost recs_before = recs@;
                recs.push(rec);
                proof {
                    let ss = spec_step(m_before, ev@, pos as int);
                    assert(spec_run(m_before, rest).records
                        =~= seq![ss.emit->0] + spec_run(ex@, zipped.skip(i + 1)).records);
                    assert(record_views(recs@)
                        =~= record_views(recs_before).push(ss.emit->0));
                    assert(record_views(recs_before).push(ss.emit->0)
                        + spec_run(ex@, zipped.skip(i + 1)).records
                        =~= record_views(recs_before)
                            + spec_run(m_before, rest).records);
                }
            },
            StepOutcome::Stop => {
                proof {
                    let ss = spec_step(m_before, ev@, pos as int);
                    assert(ss.stop && ss.error is None);
                    assert(spec_run(m_before, rest).records =~= Seq::<RecordView>::empty());
                    assert(spec_run(m_before, rest).error is None);
                    assert(full.error is None);
                    assert(full.records =~= record_views(recs@));
                }
                return Ok(recs);
            },
            StepOutcome::Failed(e) => {
                proof {
                    let ss = spec_step(m_before, ev@, pos as int);
                    assert(ss.error is Some);
                    assert(spec_run(m_before, rest).error == ss.error);
                    assert(full.error == ss.error);
                    assert(error_matches(e, ss.error->0));
                }
                return Err(e);
            },
        }
        i = i + 1;
    }
    proof {
        assert(zipped.skip(n as int) =~= Seq::<(EventView, int)>::empty());
        assert(full.records =~= record_views(recs@));
    }
    Ok(recs)
}

/// An empty `<text>` element yields no record for its revision, whatever the
/// pattern later finds: the machine returns to page level without emitting.
pub proof fn lemma_empty_text_yields_no_record(m: ExtractorView, pos: int)
    requires
        m.state == ExtractorState::SeekingText,
    ensures
        spec_step(m, EventView::Empty(tag_text()), pos).emit is None,
        spec_step(m, EventView::Empty(tag_text()), pos).error is None,
        !spec_step(m, EventView::Empty(tag_text()), pos).stop,
        spec_step(m, EventView::Empty(tag_text()), pos).m.state == ExtractorState::InPage,
{
}

/// A page whose opening tag lies at or past the range's `end` offset is not
/// processed by this range's worker: the machine stops without emitting, and
/// the page is left to the worker of the unique later range that owns its
/// position.
pub proof fn lemma_page_past_end_stops(m: ExtractorView, pos: int)
    requires
        m.state == ExtractorState::OutsidePage,
        pos >= m.end,
    ensures
        spec_step(m, EventView::Start(tag_page()), pos).stop,
        spec_step(m, EventView::Start(tag_page()), pos).emit is None,
        spec_step(m, EventView::Start(tag_page()), pos).error is None,
        spec_step(m, EventView::Start(tag_page()), pos).m.state == ExtractorState::Done,
{
}

/// A page whose namespace failed the filter is skipped entirely: the value
/// outside the filter sends the machine to the skipping state, and while it
/// skips, no event makes it emit a record.
pub proof fn lemma_filtered_page_emits_nothing(m: ExtractorView, ev: EventView, pos: int)
    requires
        m.state == ExtractorState::SkippingPage,
    ensures
        spec_step(m, ev, pos).emit is None,
        spec_step(m, ev, pos).m.state == ExtractorState::SkippingPage
            || spec_step(m, ev, pos).m.state == ExtractorState::OutsidePage
            || spec_step(m, ev, pos).m.state == ExtractorState::Failed,
{
}

/// Before a page opens, the machine only seeks: any event other than a page
/// start, an empty page element or the end of input leaves it outside a page
/// and emits nothing.
pub proof fn lemma_outside_page_only_seeks(m: ExtractorView, ev: EventView, pos: int)
    requires
        m.state == ExtractorState::OutsidePage,
        !(ev matches EventView::Start(n) && n == tag_page()),
        !(ev matches EventView::Empty(n) && n == tag_page()),
        !(ev is Eof),
    ensures
        spec_step(m, ev, pos).m == m,
        spec_step(m, ev, pos).emit is None,
        spec_step(m, ev, pos).error is None,
        !spec_step(m, ev, pos).stop,
{
    assert(spec_step(m, ev, pos).m =~= m);
}

/// Feeding a stream in two pieces is the same as feeding it whole: as long
/// as the first piece neither stops nor fails the machine, the records of
/// the whole stream are the first piece's records followed by the records of
/// the second piece run from where the machine stood.
pub proof fn lemma_run_append(
    m: ExtractorView,
    evs1: Seq<(EventView, int)>,
    evs2: Seq<(EventView, int)>,
)
    requires
        spec_run(m, evs1).error is None,
        !spec_run(m, evs1).stopped,
    ensures
        spec_run(m, evs1 + evs2).records == spec_run(m, evs1).records
            + spec_run(spec_run(m, evs1).m, evs2).records,
        spec_run(m, evs1 + evs2).m == spec_run(spec_run(m, evs1).m, evs2).m,
        spec_run(m, evs1 + evs2).stopped == spec_run(spec_run(m, evs1).m, evs2).stopped,
        spec_run(m, evs1 + evs2).error == spec_run(spec_run(m, evs1).m, evs2).error,
    decreases evs1.len(),
{
    if evs1.len() == 0 {
        assert(evs1 + evs2 =~= evs2);
        assert(spec_run(m, evs1).records + spec_run(spec_run(m, evs1).m, evs2).records
            =~= spec_run(spec_run(m, evs1).m, evs2).records);
    } else {
        let ss = spec_step(m, evs1[0].0, evs1[0].1);
        assert((evs1 + evs2)[0] == evs1[0]);
        assert((evs1 + evs2).drop_first() =~= evs1.drop_first() + evs2);
        assert(spec_run(m, evs1).error is None && !spec_run(m, evs1).stopped);
        assert(ss.error is None && !ss.stop);
        lemma_run_append(ss.m, evs1.drop_first(), evs2);
        let emitted = match ss.emit {
            Some(r) => seq![r],
            None => Seq::<RecordView>::empty(),
        };
        assert(spec_run(m, evs1 + evs2).records =~= emitted
            + spec_run(ss.m, evs1.drop_first() + evs2).records);
        assert(spec_run(m, evs1).records =~= emitted + spec_run(ss.m, evs1.drop_first()).records);
        assert(spec_run(m, evs1 + evs2).records =~= spec_run(m, evs1).records
            + spec_run(spec_run(m, evs1).m, evs2).records);
    }
}

/// The range's `end` offset never shows in what a worker produces as long as
/// every event lies below it: two machines that differ only in their `end`
/// bound emit the same records, stop together and fail together.  With the
/// ownership rule this is why splitting a file differently can only reorder
/// the revision blocks, never change them.
pub proof fn lemma_end_bound_irrelevant_below(
    m1: ExtractorView,
    m2: ExtractorView,
    evs: Seq<(EventView, int)>,
)
    requires
        m2 == (ExtractorView { end: m2.end, ..m1 }),
        forall|i: int| 0 <= i < evs.len() ==> (#[trigger] evs[i]).1 < m1.end && evs[i].1 < m2.end,
    ensures
        spec_run(m1, evs).records == spec_run(m2, evs).records,
        spec_run(m1, evs).stopped == spec_run(m2, evs).stopped,
        spec_run(m1, evs).error == spec_run(m2, evs).error,
        spec_run(m1, evs).m == (ExtractorView { end: m1.end, ..spec_run(m2, evs).m }),
    decreases evs.len(),
{
    if evs.len() > 0 {
        let ss1 = spec_step(m1, evs[0].0, evs[0].1);
        let ss2 = spec_step(m2, evs[0].0, evs[0].1);
        assert(evs[0].1 < m1.end && evs[0].1 < m2.end);
        assert(ss1.m == (ExtractorView { end: m1.end, ..ss2.m }) && ss1.emit == ss2.emit
            && ss1.stop == ss2.stop && ss1.error == ss2.error);
        if ss1.error is None && !ss1.stop {
            assert(forall|i: int| 0 <= i < evs.drop_first().len() ==>
                (#[trigger] evs.drop_first()[i]).1 < ss1.m.end
                    && evs.drop_first()[i].1 < ss2.m.end);
            lemma_end_bound_irrelevant_below(ss1.m, ss2.m, evs.drop_first());
        }
    }
}

/// The machine can stand in the two states that read a revision's text only
/// after the revision's id was read, so a leftover revision id in the
/// scratch field cannot reach a record: two machines that differ only there
/// (and agree on it whenever a text read is under way) produce the same run.
pub proof fn lemma_revision_id_scratch_irrelevant(
    m1: ExtractorView,
    m2: ExtractorView,
    evs: Seq<(EventView, int)>,
)
    requires
        m2 == (ExtractorView { revision_id: m2.revision_id, ..m1 }),
        m1.state == ExtractorState::SeekingText || m1.state == ExtractorState::ReadingText
            ==> m1.revision_id == m2.revision_id,
    ensures
        spec_run(m1, evs).records == spec_run(m2, evs).records,
        spec_run(m1, evs).stopped == spec_run(m2, evs).stopped,
        spec_run(m1, evs).error == spec_run(m2, evs).error,
        spec_run(m1, evs).m == (ExtractorView {
            revision_id: spec_run(m1, evs).m.revision_id,
            ..spec_run(m2, evs).m
        }),
        spec_run(m1, evs).m.state == ExtractorState::SeekingText
            || spec_run(m1, evs).m.state == ExtractorState::ReadingText
            ==> spec_run(m1, evs).m.revision_id == spec_run(m2, evs).m.revision_id,
    decreases evs.len(),
{
    if evs.len() > 0 {
        let ss1 = spec_step(m1, evs[0].0, evs[0].1);
        let ss2 = spec_step(m2, evs[0].0, evs[0].1);
        assert(ss1.m == (ExtractorView { revision_id: ss1.m.revision_id, ..ss2.m })
            && ss1.emit == ss2.emit && ss1.stop == ss2.stop && ss1.error == ss2.error
            && (ss1.m.state == ExtractorState::SeekingText
                || ss1.m.state == ExtractorState::ReadingText
                ==> ss1.m.revision_id == ss2.m.revision_id));
        if ss1.error is None && !ss1.stop {
            lemma_revision_id_scratch_irrelevant(ss1.m, ss2.m, evs.drop_first());
        }
    }
}

/// Every `<page>` in the stream is followed at once by `<title>` and its
/// text — the shape of a Wikimedia export, where the title is the first
/// child of a page.
pub open spec fn pages_open_with_title(evs: Seq<(EventView, int)>) -> bool {
    forall|i: int|
        0 <= i < evs.len() && (#[trigger] evs[i]).0 is Start && evs[i].0->Start_0 == tag_page()
            ==> i + 2 < evs.len() && evs[i + 1].0 == EventView::Start(tag_title())
            && evs[i + 2].0 is Text
}

proof fn lemma_pages_property_skip(evs: Seq<(EventView, int)>, k: int)
    requires
        pages_open_with_title(evs),
        0 <= k <= evs.len(),
    ensures
        pages_open_with_title(evs.skip(k)),
{
    assert forall|i: int|
        0 <= i < evs.skip(k).len() && (#[trigger] evs.skip(k)[i]).0 is Start
            && evs.skip(k)[i].0->Start_0 == tag_page()
            implies i + 2 < evs.skip(k).len()
            && evs.skip(k)[i + 1].0 == EventView::Start(tag_title())
            && evs.skip(k)[i + 2].0 is Text by {
        assert(evs.skip(k)[i] == evs[i + k]);
        assert(evs[i + k + 1] == evs.skip(k)[i + 1]);
        assert(evs[i + k + 2] == evs.skip(k)[i + 2]);
    }
}

/// A worker that resumes at a page boundary behaves like a fresh one: when
/// every page opens with its title, leftover title and revision-id scratch
/// values from earlier pages never reach a record, so two machines outside a
/// page that differ only in those fields produce the same run.
pub proof fn lemma_fresh_worker_equals_resumed(
    m1: ExtractorView,
    m2: ExtractorView,
    evs: Seq<(EventView, int)>,
)
    requires
        m2 == (ExtractorView { title: m2.title, revision_id: m2.revision_id, ..m1 }),
        m1.state == ExtractorState::OutsidePage,
        pages_open_with_title(evs),
    ensures
        spec_run(m1, evs).records == spec_run(m2, evs).records,
        spec_run(m1, evs).stopped == spec_run(m2, evs).stopped,
        spec_run(m1, evs).error == spec_run(m2, evs).error,
    decreases evs.len(),
{
    if evs.len() == 0 {
        return;
    }
    let ev0 = evs[0].0;
    let p0 = evs[0].1;
    let ss1 = spec_step(m1, ev0, p0);
    let ss2 = spec_step(m2, ev0, p0);
    if ev0 is Start && ev0->Start_0 == tag_page() && p0 < m1.end {
        // a page opens here; by the stream's shape its title follows at once
        assert(2 < evs.len() && evs[1].0 == EventView::Start(tag_title()) && evs[2].0 is Text);
        let d1 = evs.drop_first();
        let d2 = d1.drop_first();
        let d3 = d2.drop_first();
        assert(d1[0] == evs[1] && d2[0] == evs[2]);
        assert(d3 =~= evs.skip(3));
        assert(ss1.m.state == ExtractorState::InPage && ss1.emit is None && !ss1.stop
            && ss1.error is None);
        assert(ss2.m.state == ExtractorState::InPage && ss2.emit is None && !ss2.stop
            && ss2.error is None);
        let sa1 = spec_step(ss1.m, evs[1].0, evs[1].1);
        let sa2 = spec_step(ss2.m, evs[1].0, evs[1].1);
        assert(sa1.m.state == ExtractorState::ReadingTitle && sa1.emit is None && !sa1.stop
            && sa1.error is None);
        assert(sa2.m.state == ExtractorState::ReadingTitle && sa2.emit is None && !sa2.stop
            && sa2.error is None);
        let sb1 = spec_step(sa1.m, evs[2].0, evs[2].1);
        let sb2 = spec_step(sa2.m, evs[2].0, evs[2].1);
        assert(sb1.m.state == ExtractorState::InPage && sb1.emit is None && !sb1.stop
            && sb1.error is None);
        assert(sb2.m.state == ExtractorState::InPage && sb2.emit is None && !sb2.stop
            && sb2.error is None);
        // both machines now carry the page's own title
        assert(sb1.m.title == evs[2].0->Text_0 && sb2.m.title == evs[2].0->Text_0);
        assert(sb1.m == (ExtractorView { revision_id: sb1.m.revision_id, ..sb2.m }));
        lemma_pages_property_skip(evs, 3);
        lemma_revision_id_scratch_irrelevant(sb1.m, sb2.m, evs.skip(3));
        assert(spec_run(sa1.m, d2).records =~= spec_run(sb1.m, d3).records);
        assert(spec_run(ss1.m, d1).records =~= spec_run(sa1.m, d2).records);
        assert(spec_run(m1, evs).records =~= spec_run(ss1.m, d1).records);
        assert(spec_run(sa2.m, d2).records =~= spec_run(sb2.m, d3).records);
        assert(spec_run(ss2.m, d1).records =~= spec_run(sa2.m, d2).records);
        assert(spec_run(m2, evs).records =~= spec_run(ss2.m, d1).records);
    } else {
        // nothing opens here: the scan ends, fails, or stays outside a page
        assert(ss1.m == (ExtractorView { title: ss1.m.title, revision_id: ss1.m.revision_id,
            ..ss2.m }) && ss1.emit == ss2.emit && ss1.stop == ss2.stop
            && ss1.error == ss2.error && ss1.emit is None);
        if ss1.error is None && !ss1.stop {
            assert(ss1.m.state == ExtractorState::OutsidePage);
            lemma_pages_property_skip(evs, 1);
            assert(evs.drop_first() =~= evs.skip(1));
            lemma_fresh_worker_equals_resumed(ss1.m, ss2.m, evs.drop_first());
            assert(spec_run(m1, evs).records =~= spec_run(ss1.m, evs.drop_first()).records);
            assert(spec_run(m2, evs).records =~= spec_run(ss2.m, evs.drop_first()).records);
        }
    }
}

/// A step never changes the range bound or the namespace filter.
proof fn lemma_run_keeps_bounds(m: ExtractorView, evs: Seq<(EventView, int)>)
    ensures
        spec_run(m, evs).m.end == m.end,
        spec_run(m, evs).m.filter == m.filter,
    decreases evs.len(),
{
    if evs.len() > 0 {
        let ss = spec_step(m, evs[0].0, evs[0].1);
        assert(ss.m.end == m.end && ss.m.filter == m.filter);
        if ss.error is None && !ss.stop {
            lemma_run_keeps_bounds(ss.m, evs.drop_first());
        }
    }
}

/// Splitting a scan at a page boundary changes nothing of what is found:
/// when one worker consumes the stream up to the first page at or past its
/// range's `end` and a fresh worker takes over from that page, the two
/// workers' records, one list after the other, are exactly the records of a
/// single unsplit scan.  With the ownership rule of the partitioner this is
/// why the revision blocks of a search do not depend on how the file was cut
/// into ranges — only their interleaving on stdout does.
pub proof fn theorem_split_at_page_boundary(
    filter: Option<Seq<Seq<u8>>>,
    evs: Seq<(EventView, int)>,
    k: int,
    e1: int,
    e2: int,
)
    requires
        0 <= k < evs.len(),
        // the first worker consumes the prefix without stopping or failing
        // and stands between pages at the boundary
        spec_run(initial_extractor(e1, filter), evs.take(k)).error is None,
        !spec_run(initial_extractor(e1, filter), evs.take(k)).stopped,
        spec_run(initial_extractor(e1, filter), evs.take(k)).m.state
            == ExtractorState::OutsidePage,
        // the boundary event opens the first page of the next range
        evs[k].0 is Start,
        evs[k].0->Start_0 == tag_page(),
        evs[k].1 >= e1,
        // the prefix lies inside the first range, everything below the
        // unsplit scan's bound
        forall|i: int| 0 <= i < k ==> (#[trigger] evs[i]).1 < e1,
        forall|i: int| 0 <= i < evs.len() ==> (#[trigger] evs[i]).1 < e2,
        // pages open with their titles, as in a Wikimedia export
        pages_open_with_title(evs.skip(k)),
    ensures
        spec_run(initial_extractor(e2, filter), evs).records == spec_run(
            initial_extractor(e1, filter),
            evs,
        ).records + spec_run(initial_extractor(e2, filter), evs.skip(k)).records,
{
    let m1 = initial_extractor(e1, filter);
    let m2 = initial_extractor(e2, filter);
    let prefix = evs.take(k);
    let suffix = evs.skip(k);
    assert(prefix + suffix =~= evs);
    let r1p = spec_run(m1, prefix);
    let r2p = spec_run(m2, prefix);
    lemma_run_keeps_bounds(m1, prefix);
    lemma_run_keeps_bounds(m2, prefix);

    // the first worker stops at the boundary page: its records are the
    // prefix's records
    lemma_run_append(m1, prefix, suffix);
    assert(suffix[0] == evs[k]);
    let stop_step = spec_step(r1p.m, suffix[0].0, suffix[0].1);
    assert(stop_step.stop && stop_step.emit is None && stop_step.error is None);
    assert(spec_run(r1p.m, suffix).records =~= Seq::<RecordView>::empty());
    assert(spec_run(m1, evs).records =~= r1p.records);

    // the unsplit scan reads the same prefix: the bound is not consulted
    // below it
    assert(m2 == (ExtractorView { end: e2, ..m1 }));
    assert(forall|i: int| 0 <= i < prefix.len() ==> (#[trigger] prefix[i]).1 < m1.end
        && prefix[i].1 < m2.end);
    lemma_end_bound_irrelevant_below(m1, m2, prefix);
    assert(r1p.records == r2p.records);
    assert(r1p.error is None && !r1p.stopped);
    assert(r2p.error is None && !r2p.stopped);
    assert(r2p.m.state == ExtractorState::OutsidePage);

    // the unsplit scan continues into the suffix as the resumed machine,
    // which behaves like the fresh second worker
    lemma_run_append(m2, prefix, suffix);
    assert(m2 == (ExtractorView { title: m2.title, revision_id: m2.revision_id, ..r2p.m }));
    lemma_fresh_worker_equals_resumed(r2p.m, m2, suffix);
    assert(spec_run(m2, evs).records =~= r2p.records + spec_run(m2, suffix).records);
    assert(spec_run(m2, evs).records =~= spec_run(m1, evs).records
        + spec_run(m2, suffix).records);
}

/// The records of a partitioned search: the first worker runs `evs` under
/// its own bound, and the remaining workers handle the stream from each cut
/// on, the last one under the unsplit bound.  `cuts[i]` is the index, within
/// worker `i`'s stream, of the page start where that worker stops; `ends[i]`
/// is its range bound.
pub open spec fn workers_records(
    filter: Option<Seq<Seq<u8>>>,
    evs: Seq<(EventView, int)>,
    cuts: Seq<int>,
    ends: Seq<int>,
    efull: int,
) -> Seq<RecordView>
    decreases cuts.len(),
{
    if cuts.len() == 0 {
        spec_run(initial_extractor(efull, filter), evs).records
    } else {
        spec_run(initial_extractor(ends[0], filter), evs).records + workers_records(
            filter,
            evs.skip(cuts[0]),
            cuts.drop_first(),
            ends.drop_first(),
            efull,
        )
    }
}

/// Each cut is a page boundary of the kind [`theorem_split_at_page_boundary`]
/// asks for: the worker consumes its prefix cleanly and stands between pages,
/// the cut opens a page at or past the worker's bound, the prefix lies inside
/// the worker's range, everything lies below the unsplit bound, and from the
/// cut on every page opens with its title.
pub open spec fn split_conditions(
    filter: Option<Seq<Seq<u8>>>,
    evs: Seq<(EventView, int)>,
    cuts: Seq<int>,
    ends: Seq<int>,
    efull: int,
) -> bool
    decreases cuts.len(),
{
    if cuts.len() == 0 {
        true
    } else {
        let k = cuts[0];
        let e1 = ends[0];
        &&& 0 <= k < evs.len()
        &&& spec_run(initial_extractor(e1, filter), evs.take(k)).error is None
        &&& !spec_run(initial_extractor(e1, filter), evs.take(k)).stopped
        &&& spec_run(initial_extractor(e1, filter), evs.take(k)).m.state
            == ExtractorState::OutsidePage
        &&& evs[k].0 is Start
        &&& evs[k].0->Start_0 == tag_page()
        &&& evs[k].1 >= e1
        &&& forall|i: int| 0 <= i < k ==> (#[trigger] evs[i]).1 < e1
        &&& forall|i: int| 0 <= i < evs.len() ==> (#[trigger] evs[i]).1 < efull
        &&& pages_open_with_title(evs.skip(k))
        &&& split_conditions(filter, evs.skip(k), cuts.drop_first(), ends.drop_first(), efull)
    }
}

/// Splitting a scan at any number of page boundaries changes nothing of what
/// is found: the workers' records, concatenated in range order, are exactly
/// the records of a single unsplit scan.
pub proof fn theorem_split_at_page_boundaries(
    filter: Option<Seq<Seq<u8>>>,
    evs: Seq<(EventView, int)>,
    cuts: Seq<int>,
    ends: Seq<int>,
    efull: int,
)
    requires
        ends.len() == cuts.len(),
        split_conditions(filter, evs, cuts, ends, efull),
    ensures
        spec_run(initial_extractor(efull, filter), evs).records == workers_records(
            filter,
            evs,
            cuts,
            ends,
            efull,
        ),
    decreases cuts.len(),
{
    if cuts.len() > 0 {
        theorem_split_at_page_boundary(filter, evs, cuts[0], ends[0], efull);
        theorem_split_at_page_boundaries(
            filter,
            evs.skip(cuts[0]),
            cuts.drop_first(),
            ends.drop_first(),
            efull,
        );
    }
}

} // verus!
