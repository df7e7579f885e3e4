//! The entry value types and the validated time span.
use crate::time::{hm_chars, hm_string, local_dt_chars, local_dt_string, push_char,
    strify_duration, duration_str, valid_offset, valid_ts, MAX_TS, SECS_PER_DAY, SECS_PER_HOUR,
    SECS_PER_MIN};
use vstd::prelude::*;

verus! {

/// The mathematical value of an `EntryId`.
pub ghost struct EntryIdModel {
    pub title: Seq<char>,
    pub start: int,
}

/// The mathematical value of an `UnfinishedEntry`.
pub ghost struct UnfinishedModel {
    pub id: EntryIdModel,
    pub notes: Seq<char>,
}

/// The mathematical value of a `FinishedEntry`.
pub ghost struct FinishedModel {
    pub id: EntryIdModel,
    pub end: int,
    pub notes: Seq<char>,
}

impl FinishedModel {
    /// A representable finished entry: both instants in range and a
    /// positive duration.
    pub open spec fn wf(self) -> bool {
        valid_ts(self.id.start) && valid_ts(self.end) && self.id.start < self.end
    }
}

/// Identifies a unique clocking entry by its natural key: the pair of
/// title and start instant.
#[derive(Clone, Debug)]
pub struct EntryId {
    pub title: String,
    pub start: i64,
}

impl View for EntryId {
    type V = EntryIdModel;

    open spec fn view(&self) -> EntryIdModel {
        EntryIdModel { title: self.title@, start: self.start as int }
    }
}

impl EntryId {
    /// A representable identity: the start instant lies in the
    /// supported range.
    pub open spec fn wf(self) -> bool {
        valid_ts(self.start as int)
    }
}

impl PartialEq for EntryId {
    fn eq(&self, other: &EntryId) -> (r: bool) {
        self.title == other.title && self.start == other.start
    }
}

impl vstd::std_specs::cmp::PartialEqSpecImpl for EntryId {
    open spec fn obeys_eq_spec() -> bool {
        true
    }

    open spec fn eq_spec(&self, other: &EntryId) -> bool {
        self.title@ == other.title@ && self.start == other.start
    }
}

/// An entry that was started and not yet finished.
#[derive(Clone, Debug)]
pub struct UnfinishedEntry {
    pub id: EntryId,
    pub notes: String,
}

impl View for UnfinishedEntry {
    type V = UnfinishedModel;

    open spec fn view(&self) -> UnfinishedModel {
        UnfinishedModel { id: self.id@, notes: self.notes@ }
    }
}

impl UnfinishedEntry {
    /// Whole minutes elapsed since this entry was started, measured at
    /// the instant `now`.
    pub fn started_minutes(&self, now: i64) -> (r: i64)
        requires
            self.id.wf(),
            self.id.start <= now < MAX_TS,
        ensures
            r == (now - self.id.start) / 60,
    {
        (now - self.id.start) / SECS_PER_MIN
    }
}

impl UnfinishedEntry {
    /// Renders the entry as text, under the local offset `off`.
    pub fn render(&self, off: i64) -> (r: String)
        requires
            valid_offset(off as int),
            self.id.wf(),
            0 <= self.id.start + off < MAX_TS,
        ensures
            r@ == unfinished_chars(self@, off as int),
    {
        let mut out = self.id.title.clone();
        out.append(":\n\t");
        out.append("Started at: ");
        out.append(local_dt_string(self.id.start, off).as_str());
        out.append("\n");
        if !self.notes.as_str().is_empty() {
            out.append("\t");
            out.append("Notes:");
            out.append("\n");
            out.append(render_notes_block(self.notes.as_str()).as_str());
        }
        proof {
            reveal_strlit(":\n\t");
            reveal_strlit("\n");
            reveal_strlit("\t");
            assert(out@ =~= unfinished_chars(self@, off as int));
        }
        out
    }
}

impl PartialEq for UnfinishedEntry {
    fn eq(&self, other: &UnfinishedEntry) -> (r: bool) {
        self.id == other.id && self.notes == other.notes
    }
}

impl vstd::std_specs::cmp::PartialEqSpecImpl for UnfinishedEntry {
    open spec fn obeys_eq_spec() -> bool {
        true
    }

    open spec fn eq_spec(&self, other: &UnfinishedEntry) -> bool {
        self.id.title@ == other.id.title@ && self.id.start == other.id.start && self.notes@
            == other.notes@
    }
}

/// An entry that was finished: its end instant is set and lies strictly
/// after its start.
#[derive(Clone, Debug)]
pub struct FinishedEntry {
    pub id: EntryId,
    pub end: i64,
    pub notes: String,
}

impl View for FinishedEntry {
    type V = FinishedModel;

    open spec fn view(&self) -> FinishedModel {
        FinishedModel { id: self.id@, end: self.end as int, notes: self.notes@ }
    }
}

impl FinishedEntry {
    /// A representable finished entry: both instants in range and a
    /// positive duration.
    pub open spec fn wf(self) -> bool {
        self.id.wf() && valid_ts(self.end as int) && self.id.start < self.end
    }
}

impl FinishedEntry {
    /// Renders the entry as text, under the local offset `off`.
    pub fn render(&self, off: i64) -> (r: String)
        requires
            valid_offset(off as int),
            self.wf(),
            0 <= self.id.start + off,
            self.end + off < MAX_TS,
        ensures
            r@ == finished_chars(self@, off as int),
    {
        let mut out = self.id.title.clone();
        out.append(":\n\t");
        out.append(local_dt_string(self.id.start, off).as_str());
        out.append(" ~ ");
        out.append(local_dt_string(self.end, off).as_str());
        out.append("\n");
        if !self.notes.as_str().is_empty() {
            out.append("\t");
            out.append("Notes:");
            out.append("\n");
            out.append(render_notes_block(self.notes.as_str()).as_str());
        }
        proof {
            reveal_strlit(":\n\t");
            reveal_strlit("\n");
            reveal_strlit("\t");
            assert(out@ =~= finished_chars(self@, off as int));
        }
        out
    }

    /// The entry rendered as an HTML fragment: a markdown section of
    /// title, local span and notes, put through the markdown renderer.
    pub fn html_segment(&self, off: i64) -> (r: String)
        requires
            valid_offset(off as int),
            self.wf(),
            0 <= self.id.start + off,
            self.end + off < MAX_TS,
        ensures
            r@ == html_of(finished_md_chars(self@, off as int)),
    {
        let mut text = "## ".to_owned();
        text.append(self.id.title.as_str());
        text.append("\n ");
        text.append("**");
        text.append(local_dt_string(self.id.start, off).as_str());
        text.append("** ~ **");
        text.append(local_dt_string(self.end, off).as_str());
        text.append("** ");
        text.append("\n\n ");
        text.append(self.notes.as_str());
        proof {
            reveal_strlit("\n ");
            reveal_strlit("\n\n ");
            assert(text@ =~= finished_md_chars(self@, off as int));
        }
        markdown_to_html(text.as_str())
    }
}

impl PartialEq for FinishedEntry {
    fn eq(&self, other: &FinishedEntry) -> (r: bool) {
        self.id == other.id && self.end == other.end && self.notes == other.notes
    }
}

impl vstd::std_specs::cmp::PartialEqSpecImpl for FinishedEntry {
    open spec fn obeys_eq_spec() -> bool {
        true
    }

    open spec fn eq_spec(&self, other: &FinishedEntry) -> bool {
        self.id.title@ == other.id.title@ && self.id.start == other.id.start && self.end
            == other.end && self.notes@ == other.notes@
    }
}


/// The block a note renders to: every line of the note indented by a
/// tab and two spaces, each line closed by a newline. `at_start` says
/// whether the next character opens a new line.
pub open spec fn notes_chars(s: Seq<char>, at_start: bool) -> Seq<char>
    decreases s.len(), (if at_start { 1int } else { 0int }),
{
    if s.len() == 0 {
        if at_start {
            Seq::empty()
        } else {
            seq!['\n']
        }
    } else if at_start {
        seq!['\t', ' ', ' '] + notes_chars(s, false)
    } else if s[0] == '\n' {
        seq!['\n'] + notes_chars(s.drop_first(), true)
    } else {
        seq![s[0]] + notes_chars(s.drop_first(), false)
    }
}

/// Renders a note as an indented block, one line per note line.
#[verifier::loop_isolation(false)]
pub fn render_notes_block(notes: &str) -> (r: String)
    ensures
        r@ == notes_chars(notes@, true),
{
    let n = notes.unicode_len();
    let mut out = String::new();
    let mut at_start = true;
    let mut i: usize = 0;
    proof {
        assert(notes@.skip(0) =~= notes@);
        assert(out@ =~= Seq::<char>::empty());
        assert(Seq::<char>::empty() + notes_chars(notes@, true) =~= notes_chars(notes@, true));
    }
    while i < n
        invariant
            0 <= i <= n,
            n == notes@.len(),
            notes_chars(notes@, true) =~= out@ + notes_chars(notes@.skip(i as int), at_start),
        decreases n - i,
    {
        let ghost pre = out@;
        let c = notes.get_char(i);
        proof {
            assert(notes@.skip(i as int)[0] == c);
            assert(notes@.skip(i as int).drop_first() =~= notes@.skip(i as int + 1));
        }
        if at_start {
            out.append("\t  ");
            at_start = false;
            proof {
                reveal_strlit("\t  ");
                assert(out@ =~= pre + seq!['\t', ' ', ' ']);
                assert(pre + notes_chars(notes@.skip(i as int), true) =~= out@ + notes_chars(
                    notes@.skip(i as int),
                    false,
                ));
            }
        }
        let ghost pre2 = out@;
        if c == '\n' {
            push_char(&mut out, '\n');
            at_start = true;
        } else {
            push_char(&mut out, c);
        }
        proof {
            assert(out@ =~= pre2 + seq![c]);
            assert(pre2 + notes_chars(notes@.skip(i as int), false) =~= out@ + notes_chars(
                notes@.skip(i as int + 1),
                at_start,
            ));
        }
        i = i + 1;
    }
    proof {
        assert(notes@.skip(n as int).len() == 0);
        if !at_start {
            assert(notes_chars(notes@.skip(n as int), false) =~= seq!['\n']);
        }
    }
    if !at_start {
        push_char(&mut out, '\n');
    }
    proof {
        assert(out@ =~= notes_chars(notes@, true));
    }
    out
}


/// The text rendering of an unfinished entry: the title line, the
/// local start instant, and the indented notes where any are set.
pub open spec fn unfinished_chars(e: UnfinishedModel, off: int) -> Seq<char> {
    e.id.title + seq![':', '\n', '\t'] + "Started at: "@ + local_dt_chars(e.id.start, off) + seq![
        '\n',
    ] + (if e.notes.len() == 0 {
        Seq::<char>::empty()
    } else {
        seq!['\t'] + "Notes:"@ + seq!['\n'] + notes_chars(e.notes, true)
    })
}

/// The text rendering of a finished entry: the title line, the local
/// span, and the indented notes where any are set.
pub open spec fn finished_chars(e: FinishedModel, off: int) -> Seq<char> {
    e.id.title + seq![':', '\n', '\t'] + local_dt_chars(e.id.start, off) + " ~ "@
        + local_dt_chars(e.end, off) + seq!['\n'] + (if e.notes.len() == 0 {
        Seq::<char>::empty()
    } else {
        seq!['\t'] + "Notes:"@ + seq!['\n'] + notes_chars(e.notes, true)
    })
}

/// The markdown source an entry's HTML rendering is made from.
pub open spec fn finished_md_chars(e: FinishedModel, off: int) -> Seq<char> {
    "## "@ + e.id.title + seq!['\n', ' '] + "**"@ + local_dt_chars(e.id.start, off) + "** ~ **"@
        + local_dt_chars(e.end, off) + "** "@ + seq!['\n', '\n', ' '] + e.notes
}

/// The HTML that pulldown-cmark renders a markdown text to. The result
/// depends on the text alone.
pub uninterp spec fn html_of(s: Seq<char>) -> Seq<char>;

/// Relies on pulldown-cmark's `Parser::new` and `html::push_html`: the
/// markdown text rendered as an HTML fragment.
#[verifier::external_body]
fn markdown_to_html(text: &str) -> (r: String)
    ensures
        r@ == html_of(text@),
{
    let parser = pulldown_cmark::Parser::new(text);
    let mut html_output = String::new();
    pulldown_cmark::html::push_html(&mut html_output, parser);
    html_output
}

/// The mathematical value of a `TimeSpan`.
pub ghost struct SpanModel {
    pub start: int,
    pub end: int,
}

/// The time span of a finished entry, in local wall-clock seconds.
/// Built only through the validating factory `build`, so a span always
/// has a positive duration.
#[derive(Clone, Debug)]
pub struct TimeSpan {
    start: i64,
    end: i64,
}

impl View for TimeSpan {
    type V = SpanModel;

    closed spec fn view(&self) -> SpanModel {
        SpanModel { start: self.start as int, end: self.end as int }
    }
}

impl TimeSpan {
    /// A well-formed span: positive duration within the supported
    /// range of local instants.
    pub open spec fn wf(self) -> bool {
        0 <= self@.start < self@.end < MAX_TS
    }

    /// The validating factory: fails unless `end` lies after `start`.
    pub fn build(start: i64, end: i64) -> (r: Result<Self, &'static str>)
        requires
            0 <= start < MAX_TS,
            0 <= end < MAX_TS,
        ensures
            end > start ==> (r matches Ok(s) && s@ == SpanModel {
                start: start as int,
                end: end as int,
            } && s.wf()),
            end <= start ==> (r matches Err(m) && m@ == "Invalid TimeSpan: end must after start."@),
    {
        if end > start {
            Ok(TimeSpan { start, end })
        } else {
            Err("Invalid TimeSpan: end must after start.")
        }
    }

    /// The span's length in seconds.
    pub fn duration(&self) -> (r: i64)
        requires
            self.wf(),
        ensures
            r == self@.end - self@.start,
    {
        self.end - self.start
    }

    pub fn start(&self) -> (r: i64)
        ensures
            r == self@.start,
    {
        self.start
    }

    pub fn end(&self) -> (r: i64)
        ensures
            r == self@.end,
    {
        self.end
    }

    /// Renders the span with its duration; `with_date` selects the
    /// full local date format over bare `HH:MM` times.
    pub fn render(&self, with_date: bool) -> (r: String)
        requires
            self.wf(),
        ensures
            r@ == span_chars(self@, with_date),
    {
        let mut out = if with_date {
            local_dt_string(self.start, 0)
        } else {
            hm_string(crate::time::local_secs_of(self.start, 0))
        };
        out.append(" ~ ");
        let endpart = if with_date {
            local_dt_string(self.end, 0)
        } else {
            hm_string(crate::time::local_secs_of(self.end, 0))
        };
        out.append(endpart.as_str());
        out.append(", ");
        let minutes = (self.end - self.start) / SECS_PER_MIN;
        out.append(strify_duration(minutes as u128).as_str());
        proof {
            assert(out@ =~= span_chars(self@, with_date));
        }
        out
    }
}


/// The rendering of a local time span: both ends, then the duration;
/// with the full local date or as bare `HH:MM` times.
pub open spec fn span_chars(sp: SpanModel, with_date: bool) -> Seq<char> {
    (if with_date {
        local_dt_chars(sp.start, 0)
    } else {
        hm_chars(sp.start % 86400)
    }) + " ~ "@ + (if with_date {
        local_dt_chars(sp.end, 0)
    } else {
        hm_chars(sp.end % 86400)
    }) + ", "@ + duration_str((((sp.end - sp.start) / 60)) as nat)
}

impl PartialEq for TimeSpan {
    fn eq(&self, other: &TimeSpan) -> (r: bool) {
        self.start == other.start && self.end == other.end
    }
}

impl vstd::std_specs::cmp::PartialEqSpecImpl for TimeSpan {
    open spec fn obeys_eq_spec() -> bool {
        true
    }

    open spec fn eq_spec(&self, other: &TimeSpan) -> bool {
        self@ == other@
    }
}

} // verus!
