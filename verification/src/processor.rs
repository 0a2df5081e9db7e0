//! The line processor: filters and extractors replayed over one parsed
//! line, and the tail-engine state machine that feeds lines to it.
//!
//! A filter rejects a line by its field's raw value; an extractor derives a
//! label value or a numeric observation from it.  Both are registered at a
//! field position and walked in position order with monotone cursors, as
//! `process_from` states.  Durations are validated and carried as raw text
//! (their numeric value is only read outside the library); response sizes
//! are read as decimal integers here.

use vstd::prelude::*;

use crate::log_parser::line_spec;
use crate::log_parser::models;
use crate::log_parser::strings_view;
use crate::log_parser::tokens_wf;
use crate::log_parser::values_view;
use crate::log_parser::LogParser;
use crate::log_parser::ParseError;
use crate::collector::Keyed;
use crate::collector::LogData;
use crate::text::find_char;
use crate::text::find_char_from;
use crate::text::float_ok;
use crate::text::lemma_find_char_bounds;
use crate::text::lemma_find_char_none;
use crate::text::lemma_find_char_shift;
use crate::text::sub_chars;
use crate::text::sub_string;
use crate::text::float_syntax;
use crate::text::parse_u64_dec;
use crate::text::str_eq;
use crate::text::u64_dec_spec;

verus! {

/// Declares regex::Regex to the verifier: a compiled regular expression,
/// opaque here, consulted only through the two trusted calls below.
#[verifier::external_type_specification]
#[verifier::external_body]
pub struct ExRegex(regex::Regex);

/// What regex::Regex::is_match returns: whether the pattern matches
/// anywhere in the haystack; a function of the compiled regex and the
/// haystack alone.
pub uninterp spec fn regex_accepts(re: regex::Regex, text: Seq<char>) -> bool;

/// Relies on regex::Regex::is_match: true exactly when the regex matches
/// somewhere in the haystack.
pub assume_specification[ regex::Regex::is_match ](re: &regex::Regex, haystack: &str) -> (r:
    bool)
    ensures
        r == regex_accepts(*re, haystack@),
;

/// What regex::Regex::replace returns for a plain `&str` template: a
/// function of the compiled regex, the haystack and the template alone.
pub uninterp spec fn regex_substitute(
    re: regex::Regex,
    text: Seq<char>,
    rep: Seq<char>,
) -> Seq<char>;

/// Relies on regex::Regex::replace with an `&str` replacement: the first
/// match is replaced, `$name`/`$n` in the template expanding to capture
/// groups; without a match the haystack comes back unchanged.
#[verifier::external_body]
fn regex_replace(re: &regex::Regex, text: &str, rep: &str) -> (r: String)
    ensures
        r@ == regex_substitute(*re, text@, rep@),
{
    re.replace(text, rep).into_owned()
}

/// A predicate on one field's raw value; a line failing it is skipped.
pub struct Filter {
    pub field_index: usize,
    pub func: FilterFunc,
}

pub enum FilterFunc {
    Regex { regex: regex::Regex },
}

/// Mathematical image of a filter: its field position and its compiled
/// regex.
pub struct FilterModel {
    pub field_index: int,
    pub regex: regex::Regex,
}

impl View for Filter {
    type V = FilterModel;

    open spec fn view(&self) -> FilterModel {
        match self.func {
            FilterFunc::Regex { regex } => FilterModel {
                field_index: self.field_index as int,
                regex,
            },
        }
    }
}

pub open spec fn filters_view(fs: Seq<Filter>) -> Seq<FilterModel> {
    fs.map_values(|f: Filter| f@)
}

/// The compiled regex a filter declaration carries.
pub open spec fn func_regex(f: FilterFunc) -> regex::Regex {
    match f {
        FilterFunc::Regex { regex } => regex,
    }
}

pub open spec fn filter_passes(f: FilterModel, value: Seq<char>) -> bool {
    regex_accepts(f.regex, value)
}

impl Filter {
    /// Whether the field's raw value passes this filter.
    fn filter(&self, value: &str) -> (r: bool)
        ensures
            r == filter_passes(self@, value@),
    {
        match &self.func {
            FilterFunc::Regex { regex } => regex.is_match(value),
        }
    }
}

/// Derives a label value or a numeric observation from one field.
pub struct Extractor {
    pub label: Option<(String, usize)>,
    pub field_index: usize,
    pub func: ExtractorFunc,
}

pub enum ExtractorFunc {
    User,
    Status,
    Duration,
    Host,
    ResponseBodySize,
    Regex { target: String, regex: regex::Regex },
}

pub enum ExtractorFuncModel {
    User,
    Status,
    Duration,
    Host,
    ResponseBodySize,
    Regex { target: Seq<char>, regex: regex::Regex },
}

impl View for ExtractorFunc {
    type V = ExtractorFuncModel;

    open spec fn view(&self) -> ExtractorFuncModel {
        match self {
            ExtractorFunc::User => ExtractorFuncModel::User,
            ExtractorFunc::Status => ExtractorFuncModel::Status,
            ExtractorFunc::Duration => ExtractorFuncModel::Duration,
            ExtractorFunc::Host => ExtractorFuncModel::Host,
            ExtractorFunc::ResponseBodySize => ExtractorFuncModel::ResponseBodySize,
            ExtractorFunc::Regex { target, regex } => ExtractorFuncModel::Regex {
                target: target@,
                regex: *regex,
            },
        }
    }
}

/// Mathematical image of an extractor: the label slot it writes (if any),
/// its field position and its transform.
pub struct ExtractorModel {
    pub label: Option<(Seq<char>, int)>,
    pub field_index: int,
    pub func: ExtractorFuncModel,
}

impl View for Extractor {
    type V = ExtractorModel;

    open spec fn view(&self) -> ExtractorModel {
        ExtractorModel {
            label: match self.label {
                Some((name, idx)) => Some((name@, idx as int)),
                None => None,
            },
            field_index: self.field_index as int,
            func: self.func@,
        }
    }
}

pub open spec fn extractors_view(es: Seq<Extractor>) -> Seq<ExtractorModel> {
    es.map_values(|e: Extractor| e@)
}

/// The transforms that write a label slot; the two numeric observations do
/// not.
pub open spec fn needs_label(f: ExtractorFuncModel) -> bool {
    match f {
        ExtractorFuncModel::User => true,
        ExtractorFuncModel::Status => true,
        ExtractorFuncModel::Duration => false,
        ExtractorFuncModel::Host => true,
        ExtractorFuncModel::ResponseBodySize => false,
        ExtractorFuncModel::Regex { .. } => true,
    }
}

/// An extractor that writes a label slot must have one, within bounds.
pub open spec fn extractor_wf(e: ExtractorModel, nlabels: int) -> bool {
    needs_label(e.func) ==> (e.label matches Some((_, idx)) && 0 <= idx < nlabels)
}

pub open spec fn label_slot(e: ExtractorModel) -> int {
    match e.label {
        Some((_, idx)) => idx,
        None => 0,
    }
}

/// The outputs a line builds up: label values (one per slot), and the two
/// optional observations — the duration as validated raw text, the
/// response size as a byte count.
pub struct LineState {
    pub labels: Seq<Seq<char>>,
    pub duration: Option<Seq<char>>,
    pub size: Option<u64>,
}

pub open spec fn opt_view(o: Option<String>) -> Option<Seq<char>> {
    match o {
        Some(s) => Some(s@),
        None => None,
    }
}

pub open spec fn outputs_are(
    labels: Seq<String>,
    duration: Option<String>,
    size: Option<u64>,
    st: LineState,
) -> bool {
    strings_view(labels) == st.labels && opt_view(duration) == st.duration && size == st.size
}

/// The report of a failing transform; only the two numeric transforms can
/// fail.  Empty for the others.
pub open spec fn extract_err(e: ExtractorModel) -> Seq<char> {
    match e.func {
        ExtractorFuncModel::Duration => "Invalid duration"@,
        ExtractorFuncModel::ResponseBodySize => "Invalid number of bytes"@,
        _ => Seq::empty(),
    }
}

/// What one extractor does to the outputs: `User` writes `yes`/`no` by
/// whether the value differs from `-`; `Status` and `Host` copy the value
/// into their slot; `Duration` keeps the raw text of a well-formed float
/// (anything else fails the line); `ResponseBodySize` reads a decimal byte
/// count (anything else fails the line); `Regex` writes the template
/// expanded against the value.
pub open spec fn extract_spec(e: ExtractorModel, value: Seq<char>, st: LineState) -> Option<
    LineState,
> {
    match e.func {
        ExtractorFuncModel::User => Some(
            LineState {
                labels: st.labels.update(
                    label_slot(e),
                    if value == "-"@ {
                        "no"@
                    } else {
                        "yes"@
                    },
                ),
                duration: st.duration,
                size: st.size,
            },
        ),
        ExtractorFuncModel::Status => Some(
            LineState {
                labels: st.labels.update(label_slot(e), value),
                duration: st.duration,
                size: st.size,
            },
        ),
        ExtractorFuncModel::Duration => if float_syntax(value) {
            Some(LineState { labels: st.labels, duration: Some(value), size: st.size })
        } else {
            None
        },
        ExtractorFuncModel::Host => Some(
            LineState {
                labels: st.labels.update(label_slot(e), value),
                duration: st.duration,
                size: st.size,
            },
        ),
        ExtractorFuncModel::ResponseBodySize => match u64_dec_spec(value) {
            Some(n) => Some(
                LineState { labels: st.labels, duration: st.duration, size: Some(n) },
            ),
            None => None,
        },
        ExtractorFuncModel::Regex { target, regex } => Some(
            LineState {
                labels: st.labels.update(label_slot(e), regex_substitute(regex, value, target)),
                duration: st.duration,
                size: st.size,
            },
        ),
    }
}

proof fn lemma_strings_view_update(s: Seq<String>, i: int, v: String)
    requires
        0 <= i < s.len(),
    ensures
        strings_view(s.update(i, v)) =~= strings_view(s).update(i, v@),
{
}

impl Extractor {
    /// Applies this extractor's transform to the outputs, with exactly the
    /// outcomes `extract_spec` gives; on failure the outputs are untouched.
    fn extract(
        &self,
        value: &str,
        labels: &mut Vec<String>,
        duration: &mut Option<String>,
        response_body_size: &mut Option<u64>,
    ) -> (r: Result<(), ParseError>)
        requires
            extractor_wf(self@, old(labels)@.len() as int),
        ensures
            final(labels)@.len() == old(labels)@.len(),
            match extract_spec(
                self@,
                value@,
                LineState {
                    labels: strings_view(old(labels)@),
                    duration: opt_view(*old(duration)),
                    size: *old(response_body_size),
                },
            ) {
                None => (r matches Err(e) && e.0@ == extract_err(self@)) && final(labels)@ == old(
                    labels,
                )@ && *final(duration) == *old(duration) && *final(response_body_size) == *old(
                    response_body_size,
                ),
                Some(st) => r is Ok && outputs_are(
                    final(labels)@,
                    *final(duration),
                    *final(response_body_size),
                    st,
                ),
            },
    {
        match &self.func {
            ExtractorFunc::User => {
                let idx: usize = match &self.label {
                    Some((_, i)) => *i,
                    None => {
                        proof {
                            assert(false);
                        }
                        0
                    },
                };
                let out: String = if !str_eq(value, "-") {
                    "yes".to_owned()
                } else {
                    "no".to_owned()
                };
                proof {
                    lemma_strings_view_update(labels@, idx as int, out);
                }
                labels[idx] = out;
                Ok(())
            },
            ExtractorFunc::Status => {
                let idx: usize = match &self.label {
                    Some((_, i)) => *i,
                    None => {
                        proof {
                            assert(false);
                        }
                        0
                    },
                };
                let out = value.to_owned();
                proof {
                    lemma_strings_view_update(labels@, idx as int, out);
                }
                labels[idx] = out;
                Ok(())
            },
            ExtractorFunc::Duration => {
                if float_ok(value) {
                    *duration = Some(value.to_owned());
                    Ok(())
                } else {
                    Err(ParseError("Invalid duration".to_owned()))
                }
            },
            ExtractorFunc::Host => {
                let idx: usize = match &self.label {
                    Some((_, i)) => *i,
                    None => {
                        proof {
                            assert(false);
                        }
                        0
                    },
                };
                let out = value.to_owned();
                proof {
                    lemma_strings_view_update(labels@, idx as int, out);
                }
                labels[idx] = out;
                Ok(())
            },
            ExtractorFunc::ResponseBodySize => {
                match parse_u64_dec(value) {
                    Some(n) => {
                        *response_body_size = Some(n);
                        Ok(())
                    },
                    None => Err(ParseError("Invalid number of bytes".to_owned())),
                }
            },
            ExtractorFunc::Regex { target, regex } => {
                let idx: usize = match &self.label {
                    Some((_, i)) => *i,
                    None => {
                        proof {
                            assert(false);
                        }
                        0
                    },
                };
                let out = regex_replace(regex, value, target.as_str());
                proof {
                    lemma_strings_view_update(labels@, idx as int, out);
                }
                labels[idx] = out;
                Ok(())
            },
        }
    }
}

/// Cursor walk over the filters registered at one field position: stops at
/// the first filter whose regex rejects the value.
pub open spec fn run_filters(
    filters: Seq<FilterModel>,
    fi: int,
    field: int,
    value: Seq<char>,
) -> (int, bool)
    decreases filters.len() - fi when 0 <= fi <= filters.len()
{
    if fi < filters.len() && filters[fi].field_index == field {
        if !filter_passes(filters[fi], value) {
            (fi, false)
        } else {
            run_filters(filters, fi + 1, field, value)
        }
    } else {
        (fi, true)
    }
}

/// Cursor walk over the extractors registered at one field position:
/// carries the outputs through each transform and stops at the first
/// failure, yielding the outputs as they stood there.
pub open spec fn run_extractors(
    extractors: Seq<ExtractorModel>,
    ei: int,
    field: int,
    value: Seq<char>,
    st: LineState,
) -> (int, LineState, bool)
    decreases extractors.len() - ei when 0 <= ei <= extractors.len()
{
    if ei < extractors.len() && extractors[ei].field_index == field {
        match extract_spec(extractors[ei], value, st) {
            None => (ei, st, false),
            Some(st2) => run_extractors(extractors, ei + 1, field, value, st2),
        }
    } else {
        (ei, st, true)
    }
}

/// The per-line outcome, each variant carrying the outputs as they stood
/// when the walk stopped: rejected by a filter, failed (on a line that
/// does not parse, or on a malformed numeric field) with the report of the
/// failure, or matched through every field.
pub enum ProcessModel {
    Reject(LineState),
    Fail(LineState, Seq<char>),
    Accept(LineState),
}

/// Walks the parsed fields from position `vi` with filter cursor `fi` and
/// extractor cursor `ei`: at each field, first every filter registered
/// there (a rejection ends the line as Reject), then every extractor (a
/// failure ends it as Fail).
pub open spec fn process_from(
    filters: Seq<FilterModel>,
    extractors: Seq<ExtractorModel>,
    values: Seq<(Seq<char>, Seq<char>)>,
    vi: int,
    fi: int,
    ei: int,
    st: LineState,
) -> ProcessModel
    decreases values.len() - vi when 0 <= vi <= values.len()
{
    if vi < 0 || vi >= values.len() {
        ProcessModel::Accept(st)
    } else {
        let value = values[vi].1;
        let pass = run_filters(filters, fi, vi, value).1;
        let fi2 = run_filters(filters, fi, vi, value).0;
        if !pass {
            ProcessModel::Reject(st)
        } else {
            let stepped = run_extractors(extractors, ei, vi, value, st);
            if !stepped.2 {
                ProcessModel::Fail(stepped.1, extract_err(extractors[stepped.0]))
            } else {
                process_from(filters, extractors, values, vi + 1, fi2, stepped.0, stepped.1)
            }
        }
    }
}

/// The compiled pipeline for one log file: the grammar, the label slots,
/// and the filters and extractors sorted by field position.
pub struct LogProcessor {
    pub filename: String,
    pub log_parser: LogParser,
    pub labels: Vec<String>,
    pub filters: Vec<Filter>,
    pub extractors: Vec<Extractor>,
}

impl LogProcessor {
    /// The grammar's literal runs are nonempty and every extractor's label
    /// slot lies within the label list.
    pub open spec fn wf(&self) -> bool {
        &&& tokens_wf(models(self.log_parser.tokens@))
        &&& forall|i: int|
            0 <= i < self.extractors@.len() ==> extractor_wf(
                #[trigger] extractors_view(self.extractors@)[i],
                self.labels@.len() as int,
            )
    }

    /// The whole outcome for one raw line: parse it against the grammar
    /// (failure is a parse error), then walk the fields in order.
    pub open spec fn line_outcome(&self, line: Seq<char>, st: LineState) -> ProcessModel {
        match line_spec(models(self.log_parser.tokens@), line, 0) {
            None => ProcessModel::Fail(
                st,
                crate::log_parser::line_err(models(self.log_parser.tokens@), line, 0),
            ),
            Some((vals, e)) => process_from(
                filters_view(self.filters@),
                extractors_view(self.extractors@),
                vals,
                0,
                0,
                0,
                st,
            ),
        }
    }

    /// Parses one line and applies filters and extractors in field order,
    /// with exactly the outcome `line_outcome` gives: `Ok(false)` for a
    /// filtered line, `Ok(true)` with the outputs filled in for a match,
    /// and an error for a line that fails parsing or a numeric transform.
    #[verifier::loop_isolation(false)]
    pub fn process_line(
        &self,
        line: &str,
        label_values: &mut Vec<String>,
        duration: &mut Option<String>,
        response_body_size: &mut Option<u64>,
    ) -> (r: Result<bool, ParseError>)
        requires
            self.wf(),
            old(label_values)@.len() == self.labels@.len(),
        ensures
            match self.line_outcome(
                line@,
                LineState {
                    labels: strings_view(old(label_values)@),
                    duration: opt_view(*old(duration)),
                    size: *old(response_body_size),
                },
            ) {
                ProcessModel::Reject(st) => r matches Ok(b) && !b && outputs_are(
                    final(label_values)@,
                    *final(duration),
                    *final(response_body_size),
                    st,
                ),
                ProcessModel::Fail(st, msg) => (r matches Err(e) && e.0@ == msg) && outputs_are(
                    final(label_values)@,
                    *final(duration),
                    *final(response_body_size),
                    st,
                ),
                ProcessModel::Accept(st) => r matches Ok(b) && b && outputs_are(
                    final(label_values)@,
                    *final(duration),
                    *final(response_body_size),
                    st,
                ),
            },
    {
        let ghost st0 = LineState {
            labels: strings_view(label_values@),
            duration: opt_view(*duration),
            size: *response_body_size,
        };
        let ghost fv = filters_view(self.filters@);
        let ghost ev = extractors_view(self.extractors@);
        let values = match self.log_parser.parse(line) {
            Ok(v) => v,
            Err(e) => {
                return Err(e);
            },
        };
        let ghost vals = values_view(values@);
        let nf = self.filters.len();
        let ne = self.extractors.len();
        let nv = values.len();
        let mut filter_index: usize = 0;
        let mut extractor_index: usize = 0;
        let mut field_index: usize = 0;
        while field_index < nv
            invariant
                self.wf(),
                fv == filters_view(self.filters@),
                ev == extractors_view(self.extractors@),
                nf == fv.len(),
                ne == ev.len(),
                nv == vals.len(),
                vals == values_view(values@),
                field_index <= nv,
                filter_index <= nf,
                extractor_index <= ne,
                label_values@.len() == self.labels@.len(),
                process_from(fv, ev, vals, 0, 0, 0, st0) == process_from(
                    fv,
                    ev,
                    vals,
                    field_index as int,
                    filter_index as int,
                    extractor_index as int,
                    LineState {
                        labels: strings_view(label_values@),
                        duration: opt_view(*duration),
                        size: *response_body_size,
                    },
                ),
            decreases nv - field_index,
        {
            let ghost entry_fi = filter_index as int;
            let ghost entry_ei = extractor_index as int;
            let ghost entry_st = LineState {
                labels: strings_view(label_values@),
                duration: opt_view(*duration),
                size: *response_body_size,
            };
            let value: &str = values[field_index].value.as_str();
            proof {
                assert(vals[field_index as int] == values@[field_index as int]@);
            }
            // filters registered at this field position
            while filter_index < nf && self.filters[filter_index].field_index == field_index
                invariant
                    self.wf(),
                    fv == filters_view(self.filters@),
                    nf == fv.len(),
                    nv == vals.len(),
                    field_index < nv,
                    entry_fi <= filter_index <= nf,
                    value@ == vals[field_index as int].1,
                    label_values@.len() == self.labels@.len(),
                    outputs_are(label_values@, *duration, *response_body_size, entry_st),
                    run_filters(fv, entry_fi, field_index as int, value@) == run_filters(
                        fv,
                        filter_index as int,
                        field_index as int,
                        value@,
                    ),
                decreases nf - filter_index,
            {
                proof {
                    assert(fv[filter_index as int] == self.filters@[filter_index as int]@);
                }
                if !self.filters[filter_index].filter(value) {
                    proof {
                        assert(run_filters(fv, filter_index as int, field_index as int, value@)
                            == (filter_index as int, false));
                    }
                    return Ok(false);
                }
                filter_index += 1;
            }
            // extractors registered at this field position
            while extractor_index < ne && self.extractors[extractor_index].field_index
                == field_index
                invariant
                    self.wf(),
                    ev == extractors_view(self.extractors@),
                    ne == ev.len(),
                    nv == vals.len(),
                    field_index < nv,
                    entry_ei <= extractor_index <= ne,
                    value@ == vals[field_index as int].1,
                    label_values@.len() == self.labels@.len(),
                    run_extractors(ev, entry_ei, field_index as int, value@, entry_st)
                        == run_extractors(
                        ev,
                        extractor_index as int,
                        field_index as int,
                        value@,
                        LineState {
                            labels: strings_view(label_values@),
                            duration: opt_view(*duration),
                            size: *response_body_size,
                        },
                    ),
                decreases ne - extractor_index,
            {
                proof {
                    assert(ev[extractor_index as int] == self.extractors@[extractor_index as int]@);
                    assert(extractor_wf(ev[extractor_index as int], self.labels@.len() as int));
                }
                match self.extractors[extractor_index].extract(
                    value,
                    label_values,
                    duration,
                    response_body_size,
                ) {
                    Ok(()) => {},
                    Err(e) => {
                        return Err(e);
                    },
                }
                extractor_index += 1;
            }
            field_index += 1;
        }
        Ok(true)
    }
}


/// No complete line is buffered: the carry-over text has no newline.
pub open spec fn no_newline(s: Seq<char>) -> bool {
    forall|i: int| 0 <= i < s.len() ==> s[i] != '\n'
}

/// Splits text at newlines: the complete lines, without their
/// terminators, and the trailing partial line.
pub open spec fn split_lines(s: Seq<char>) -> (Seq<Seq<char>>, Seq<char>)
    decreases s.len() via split_lines_dec
{
    match find_char(s, '\n', 0) {
        None => (Seq::empty(), s),
        Some(k) => (
            seq![s.subrange(0, k)] + split_lines(s.subrange(k + 1, s.len() as int)).0,
            split_lines(s.subrange(k + 1, s.len() as int)).1,
        ),
    }
}

#[via_fn]
proof fn split_lines_dec(s: Seq<char>) {
    lemma_find_char_bounds(s, '\n', 0);
}

/// The trailing partial line never holds a newline.
pub proof fn lemma_split_lines_rest(s: Seq<char>)
    ensures
        no_newline(split_lines(s).1),
    decreases s.len(),
{
    lemma_find_char_bounds(s, '\n', 0);
    match find_char(s, '\n', 0) {
        None => {
            lemma_find_char_none(s, '\n', 0);
        },
        Some(k) => {
            lemma_split_lines_rest(s.subrange(k + 1, s.len() as int));
        },
    }
}

/// Per-file tailing state: the byte offset already consumed and the
/// carried-over partial line.
pub struct TailState {
    pub offset: u64,
    pub buffer: Vec<char>,
}

/// What a filesystem event demands of the engine.
pub enum TailEvent {
    Write,
    CloseWrite,
    Other,
}

pub enum TailStep {
    ReadMore,
    Reopen,
}

impl TailState {
    pub open spec fn wf(&self) -> bool {
        no_newline(self.buffer@)
    }

    /// A fresh engine: nothing read, nothing carried over.
    pub fn new() -> (t: TailState)
        ensures
            t.offset == 0,
            t.buffer@ =~= Seq::<char>::empty(),
            t.wf(),
    {
        TailState { offset: 0, buffer: Vec::new() }
    }

    pub fn offset(&self) -> (o: u64)
        ensures
            o == self.offset,
    {
        self.offset
    }

    pub fn buffered(&self) -> (n: usize)
        ensures
            n == self.buffer@.len(),
    {
        self.buffer.len()
    }

    /// A watch now stands: reading starts at the file's current end —
    /// content written before this moment is never processed — and the
    /// shared state becomes visible.
    pub fn start_watch(&mut self, data: &mut LogData, end_offset: u64)
        ensures
            final(self).offset == end_offset,
            final(self).buffer@ =~= Seq::<char>::empty(),
            final(self).wf(),
            final(data).active,
            final(data).error_count == old(data).error_count,
    {
        self.offset = end_offset;
        self.buffer = Vec::new();
        data.active = true;
    }

    /// Truncation handling: a file now smaller than the consumed offset is
    /// picked up again from its new end; nothing else changes and no error
    /// arises.
    pub fn check_size(&mut self, size: u64)
        ensures
            final(self).buffer == old(self).buffer,
            final(self).offset == (if size < old(self).offset {
                size
            } else {
                old(self).offset
            }),
    {
        if size < self.offset {
            self.offset = size;
        }
    }
}

/// Event classification: a data write or a close-after-write keeps the
/// watch and asks for a read; anything else drops the watch — the caller
/// reopens after a cool-down, which picks up a rotated file.
pub fn handle_event(data: &mut LogData, ev: &TailEvent) -> (s: TailStep)
    ensures
        final(data).error_count == old(data).error_count,
        match ev {
            TailEvent::Write => s is ReadMore && final(data).active == old(data).active,
            TailEvent::CloseWrite => s is ReadMore && final(data).active == old(data).active,
            TailEvent::Other => s is Reopen && !final(data).active,
        },
{
    match ev {
        TailEvent::Write => TailStep::ReadMore,
        TailEvent::CloseWrite => TailStep::ReadMore,
        TailEvent::Other => {
            data.active = false;
            TailStep::Reopen
        },
    }
}

/// The open-failure decision: a missing file is no error — the caller
/// retries after a cool-down and the shared state, the `active` flag
/// included, stays untouched; any other failure is fatal.
pub fn handle_open_failure(data: &mut LogData, missing: bool) -> (fatal: bool)
    ensures
        *final(data) == *old(data),
        fatal == !missing,
{
    if missing {
        false
    } else {
        true
    }
}

/// One matched line's metric update: the label values and the optional
/// observations, the duration as validated raw text.
pub struct LineUpdate {
    pub labels: Vec<String>,
    pub duration: Option<String>,
    pub size: Option<u64>,
}

impl View for LineUpdate {
    type V = LineState;

    open spec fn view(&self) -> LineState {
        LineState {
            labels: strings_view(self.labels@),
            duration: opt_view(self.duration),
            size: self.size,
        }
    }
}

pub open spec fn updates_view(us: Seq<LineUpdate>) -> Seq<LineState> {
    us.map_values(|u: LineUpdate| u@)
}

/// The outputs every line starts from: each label slot `unk`, no
/// observations.
pub open spec fn init_state(nlabels: int) -> LineState {
    LineState {
        labels: Seq::new(nlabels as nat, |i: int| "unk"@),
        duration: None,
        size: None,
    }
}

/// How many of the lines fail (a parse error or a malformed numeric
/// field).
pub open spec fn errors_of(p: &LogProcessor, lines: Seq<Seq<char>>) -> int
    decreases lines.len(),
{
    if lines.len() == 0 {
        0
    } else {
        (if p.run_line(lines[0]) is Fail {
            1int
        } else {
            0int
        }) + errors_of(p, lines.drop_first())
    }
}

/// The matched lines' outputs, in file order.
pub open spec fn updates_of(p: &LogProcessor, lines: Seq<Seq<char>>) -> Seq<LineState>
    decreases lines.len(),
{
    if lines.len() == 0 {
        Seq::empty()
    } else {
        match p.run_line(lines[0]) {
            ProcessModel::Accept(st) => seq![st] + updates_of(p, lines.drop_first()),
            _ => updates_of(p, lines.drop_first()),
        }
    }
}

pub proof fn lemma_errors_of_bound(p: &LogProcessor, lines: Seq<Seq<char>>)
    ensures
        0 <= errors_of(p, lines) <= lines.len(),
    decreases lines.len(),
{
    if lines.len() > 0 {
        lemma_errors_of_bound(p, lines.drop_first());
    }
}

pub proof fn lemma_errors_of_push(p: &LogProcessor, lines: Seq<Seq<char>>, l: Seq<char>)
    ensures
        errors_of(p, lines.push(l)) == errors_of(p, lines) + (if p.run_line(l) is Fail {
            1int
        } else {
            0int
        }),
    decreases lines.len(),
{
    let q = lines.push(l);
    if lines.len() == 0 {
        assert(q[0] == l);
        assert(q.drop_first() =~= Seq::<Seq<char>>::empty());
        assert(errors_of(p, Seq::<Seq<char>>::empty()) == 0);
        assert(errors_of(p, lines) == 0);
    } else {
        assert(q[0] == lines[0]);
        assert(q.drop_first() =~= lines.drop_first().push(l));
        lemma_errors_of_push(p, lines.drop_first(), l);
    }
}

pub proof fn lemma_updates_of_push(p: &LogProcessor, lines: Seq<Seq<char>>, l: Seq<char>)
    ensures
        updates_of(p, lines.push(l)) == updates_of(p, lines) + (match p.run_line(l) {
            ProcessModel::Accept(st) => seq![st],
            _ => Seq::<LineState>::empty(),
        }),
    decreases lines.len(),
{
    let q = lines.push(l);
    if lines.len() == 0 {
        assert(q[0] == l);
        assert(q.drop_first() =~= Seq::<Seq<char>>::empty());
        assert(updates_of(p, Seq::<Seq<char>>::empty()) =~= Seq::<LineState>::empty());
        assert(updates_of(p, lines) =~= Seq::<LineState>::empty());
        match p.run_line(l) {
            ProcessModel::Accept(st) => {
                assert(updates_of(p, q) =~= seq![st]);
                assert(updates_of(p, lines) + seq![st] =~= seq![st]);
            },
            _ => {
                assert(updates_of(p, q) =~= Seq::<LineState>::empty());
                assert(updates_of(p, lines) + Seq::<LineState>::empty()
                    =~= Seq::<LineState>::empty());
            },
        }
    } else {
        assert(q[0] == lines[0]);
        assert(q.drop_first() =~= lines.drop_first().push(l));
        lemma_updates_of_push(p, lines.drop_first(), l);
        match p.run_line(lines[0]) {
            ProcessModel::Accept(st0) => {
                match p.run_line(l) {
                    ProcessModel::Accept(st) => {
                        assert(seq![st0] + (updates_of(p, lines.drop_first()) + seq![st]) =~= (
                        seq![st0] + updates_of(p, lines.drop_first())) + seq![st]);
                    },
                    _ => {
                        assert(seq![st0] + (updates_of(p, lines.drop_first())
                            + Seq::<LineState>::empty()) =~= (seq![st0] + updates_of(
                            p,
                            lines.drop_first(),
                        )) + Seq::<LineState>::empty());
                    },
                }
            },
            _ => {
            },
        }
    }
}

pub proof fn lemma_updates_view_push(us: Seq<LineUpdate>, u: LineUpdate)
    ensures
        updates_view(us.push(u)) =~= updates_view(us).push(u@),
{
    let p = us.push(u);
    assert forall|i: int| 0 <= i < p.len() implies updates_view(p)[i] == updates_view(us).push(
        u@,
    )[i] by {
        if i < us.len() {
            assert(p[i] == us[i]);
        } else {
            assert(p[i] == u);
        }
    }
}

impl LogProcessor {
    /// One line's outcome from the fresh per-line outputs.
    pub open spec fn run_line(&self, line: Seq<char>) -> ProcessModel {
        self.line_outcome(line, init_state(self.labels@.len() as int))
    }

    /// The read step of the tail cycle: append the newly read text to the
    /// carry-over buffer, advance the offset by the bytes read, run every
    /// complete line through the pipeline in file order, and keep the
    /// trailing partial line for the next read.  Each failing line counts
    /// once into the shared error counter; each matched line yields one
    /// metric update, in order; filtered lines yield nothing.
    #[verifier::loop_isolation(false)]
    pub fn consume_chunk(
        &self,
        tail: &mut TailState,
        data: &mut LogData,
        chunk: &Vec<char>,
        nbytes: u64,
    ) -> (updates: Vec<LineUpdate>)
        requires
            self.wf(),
            old(tail).wf(),
            old(tail).offset + nbytes <= u64::MAX,
            old(data).error_count + old(tail).buffer@.len() + chunk@.len() <= u64::MAX,
        ensures
            final(tail).offset == old(tail).offset + nbytes,
            final(tail).buffer@ == split_lines(old(tail).buffer@ + chunk@).1,
            final(tail).wf(),
            final(data).active == old(data).active,
            final(data).error_count == old(data).error_count + errors_of(
                self,
                split_lines(old(tail).buffer@ + chunk@).0,
            ),
            updates_view(updates@) == updates_of(self, split_lines(old(tail).buffer@ + chunk@).0),
    {
        let ghost combined = old(tail).buffer@ + chunk@;
        let ghost lines = split_lines(combined).0;
        let mut k: usize = 0;
        while k < chunk.len()
            invariant
                k <= chunk@.len(),
                tail.buffer@ == old(tail).buffer@ + chunk@.take(k as int),
                tail.offset == old(tail).offset,
                *data == *old(data),
            decreases chunk@.len() - k,
        {
            let ghost before = tail.buffer@;
            tail.buffer.push(chunk[k]);
            proof {
                assert(tail.buffer@ =~= old(tail).buffer@ + chunk@.take(k + 1));
            }
            k += 1;
        }
        proof {
            assert(tail.buffer@ =~= combined);
        }
        let total = tail.buffer.len();
        tail.offset = tail.offset + nbytes;
        let mut updates: Vec<LineUpdate> = Vec::new();
        let mut start: usize = 0;
        let ghost mut done: Seq<Seq<char>> = Seq::empty();
        proof {
            assert(combined.skip(0) =~= combined);
            assert(done + split_lines(combined.skip(0)).0 =~= split_lines(combined).0);
            assert(updates_view(updates@) =~= Seq::<LineState>::empty());
            assert(updates_of(self, done) =~= Seq::<LineState>::empty());
            lemma_errors_of_bound(self, done);
        }
        let mut scanning = true;
        while scanning
            invariant
                combined.len() == total,
                start <= combined.len(),
                tail.buffer@ == combined,
                tail.offset == old(tail).offset + nbytes,
                done.len() <= start,
                split_lines(combined).0 == done + split_lines(combined.skip(start as int)).0,
                split_lines(combined).1 == split_lines(combined.skip(start as int)).1,
                data.active == old(data).active,
                data.error_count == old(data).error_count + errors_of(self, done),
                0 <= errors_of(self, done) <= done.len(),
                updates_view(updates@) == updates_of(self, done),
                !scanning ==> find_char(combined, '\n', start as int) is None,
            decreases combined.len() - start + (if scanning {
                1int
            } else {
                0int
            }),
        {
            let ghost suffix = combined.skip(start as int);
            proof {
                lemma_find_char_shift(combined, '\n', start as int, 0);
                lemma_find_char_bounds(combined, '\n', start as int);
            }
            match find_char_from(&tail.buffer, '\n', start) {
                None => {
                    scanning = false;
                },
                Some(k2) => {
                    proof {
                        assert(find_char(suffix, '\n', 0) == Some(k2 - start));
                        assert(suffix.subrange(0, k2 - start) =~= combined.subrange(
                            start as int,
                            k2 as int,
                        ));
                        assert(suffix.subrange(k2 - start + 1, suffix.len() as int)
                            =~= combined.skip(k2 + 1));
                    }
                    let line = sub_string(&tail.buffer, start, k2);
                    let ghost lseq = combined.subrange(start as int, k2 as int);
                    let mut label_values: Vec<String> = Vec::new();
                    let mut li: usize = 0;
                    while li < self.labels.len()
                        invariant
                            li <= self.labels@.len(),
                            label_values@.len() == li,
                            forall|t: int|
                                0 <= t < li ==> strings_view(label_values@)[t] == "unk"@,
                        decreases self.labels@.len() - li,
                    {
                        let ghost lv_before = label_values@;
                        label_values.push("unk".to_owned());
                        proof {
                            assert(strings_view(label_values@)[li as int] == label_values@[
                                li as int]@);
                            assert forall|t: int| 0 <= t < li implies strings_view(
                                label_values@,
                            )[t] == "unk"@ by {
                                assert(label_values@[t] == lv_before[t]);
                                assert(strings_view(lv_before)[t] == lv_before[t]@);
                            }
                        }
                        li += 1;
                    }
                    proof {
                        assert(strings_view(label_values@) =~= init_state(
                            self.labels@.len() as int,
                        ).labels);
                    }
                    let mut duration: Option<String> = None;
                    let mut size_out: Option<u64> = None;
                    let ghost done_before = done;
                    match self.process_line(
                        line.as_str(),
                        &mut label_values,
                        &mut duration,
                        &mut size_out,
                    ) {
                        Ok(matched) => {
                            if matched {
                                let u = LineUpdate {
                                    labels: label_values,
                                    duration,
                                    size: size_out,
                                };
                                proof {
                                    lemma_updates_view_push(updates@, u);
                                }
                                updates.push(u);
                            }
                        },
                        Err(_) => {
                            proof {
                                lemma_errors_of_bound(self, done);
                            }
                            data.error_count = data.error_count + 1;
                        },
                    }
                    proof {
                        done = done_before.push(lseq);
                        lemma_errors_of_push(self, done_before, lseq);
                        lemma_updates_of_push(self, done_before, lseq);
                        lemma_errors_of_bound(self, done);
                        assert(split_lines(suffix).0 == seq![lseq] + split_lines(
                            combined.skip(k2 + 1),
                        ).0);
                        assert(done_before + split_lines(suffix).0 =~= done + split_lines(
                            combined.skip(k2 + 1),
                        ).0);
                    }
                    start = k2 + 1;
                },
            }
        }
        proof {
            let suffix = combined.skip(start as int);
            lemma_find_char_shift(combined, '\n', start as int, 0);
            assert(find_char(suffix, '\n', 0) is None);
            assert(split_lines(suffix).0 =~= Seq::<Seq<char>>::empty());
            assert(split_lines(suffix).1 == suffix);
            assert(done + split_lines(suffix).0 =~= done);
            assert(lines =~= done);
            lemma_split_lines_rest(combined);
        }
        let rest = sub_chars(&tail.buffer, start, tail.buffer.len());
        proof {
            assert(rest@ =~= combined.skip(start as int));
        }
        tail.buffer = rest;
        updates
    }
}


/// Whether a transform can fail on this value: only the two numeric
/// transforms can, and only by the value's own shape.
pub open spec fn extract_total(e: ExtractorModel, value: Seq<char>) -> bool {
    match e.func {
        ExtractorFuncModel::Duration => float_syntax(value),
        ExtractorFuncModel::ResponseBodySize => u64_dec_spec(value) is Some,
        _ => true,
    }
}

pub proof fn lemma_extract_total(e: ExtractorModel, value: Seq<char>, st: LineState)
    ensures
        (extract_spec(e, value, st) is Some) == extract_total(e, value),
{
}

pub proof fn lemma_run_filters_props(
    filters: Seq<FilterModel>,
    fi: int,
    field: int,
    value: Seq<char>,
)
    requires
        0 <= fi <= filters.len(),
    ensures
        ({
            let (fi2, pass) = run_filters(filters, fi, field, value);
            &&& fi <= fi2 <= filters.len()
            &&& forall|k: int| fi <= k < fi2 ==> (#[trigger] filters[k].field_index) == field
            &&& (pass ==> fi2 == filters.len() || filters[fi2].field_index != field)
            &&& (!pass ==> fi2 < filters.len() && filters[fi2].field_index == field
                && !filter_passes(filters[fi2], value))
        }),
    decreases filters.len() - fi,
{
    if fi < filters.len() && filters[fi].field_index == field && filter_passes(
        filters[fi],
        value,
    ) {
        lemma_run_filters_props(filters, fi + 1, field, value);
    }
}

pub proof fn lemma_run_filters_reject(
    filters: Seq<FilterModel>,
    fi: int,
    field: int,
    value: Seq<char>,
)
    requires
        0 <= fi <= filters.len(),
        crate::collector::sorted_by_key(filters),
        forall|k: int| fi <= k < filters.len() ==> (#[trigger] filters[k].field_index) >= field,
        exists|k: int|
            fi <= k < filters.len() && (#[trigger] filters[k].field_index) == field
                && !filter_passes(filters[k], value),
    ensures
        !run_filters(filters, fi, field, value).1,
    decreases filters.len() - fi,
{
    let w = choose|k: int|
        fi <= k < filters.len() && (#[trigger] filters[k].field_index) == field
            && !filter_passes(filters[k], value);
    if fi < filters.len() && filters[fi].field_index == field {
        if filter_passes(filters[fi], value) {
            assert(w != fi);
            assert(fi + 1 <= w < filters.len() && filters[w].field_index == field
                && !filter_passes(filters[w], value));
            lemma_run_filters_reject(filters, fi + 1, field, value);
        }
    } else {
        assert(filters[w].key() >= filters[fi].key());
        assert(false);
    }
}

pub proof fn lemma_run_extractors_ok(
    extractors: Seq<ExtractorModel>,
    ei: int,
    field: int,
    value: Seq<char>,
    st: LineState,
)
    requires
        0 <= ei <= extractors.len(),
        forall|k: int|
            ei <= k < extractors.len() && (#[trigger] extractors[k].field_index) == field
                ==> extract_total(extractors[k], value),
    ensures
        ({
            let (ei2, st2, ok) = run_extractors(extractors, ei, field, value, st);
            &&& ok
            &&& ei <= ei2 <= extractors.len()
            &&& (ei2 == extractors.len() || extractors[ei2].field_index != field)
        }),
    decreases extractors.len() - ei,
{
    if ei < extractors.len() && extractors[ei].field_index == field {
        lemma_extract_total(extractors[ei], value, st);
        let st2 = extract_spec(extractors[ei], value, st)->Some_0;
        lemma_run_extractors_ok(extractors, ei + 1, field, value, st2);
    }
}

pub proof fn lemma_process_from_rejects(
    filters: Seq<FilterModel>,
    extractors: Seq<ExtractorModel>,
    values: Seq<(Seq<char>, Seq<char>)>,
    vi: int,
    fi: int,
    ei: int,
    st: LineState,
    f: int,
)
    requires
        crate::collector::sorted_by_key(filters),
        crate::collector::sorted_by_key(extractors),
        0 <= vi <= f < values.len(),
        0 <= fi <= filters.len(),
        0 <= ei <= extractors.len(),
        forall|k: int| fi <= k < filters.len() ==> (#[trigger] filters[k].field_index) >= vi,
        forall|k: int| ei <= k < extractors.len() ==> (#[trigger] extractors[k].field_index) >= vi,
        exists|k: int|
            fi <= k < filters.len() && (#[trigger] filters[k].field_index) == f
                && !filter_passes(filters[k], values[f].1),
        forall|k: int|
            ei <= k < extractors.len() && (#[trigger] extractors[k].field_index) < f
                ==> extract_total(extractors[k], values[extractors[k].field_index].1),
    ensures
        process_from(filters, extractors, values, vi, fi, ei, st) is Reject,
    decreases f - vi,
{
    let value = values[vi].1;
    lemma_run_filters_props(filters, fi, vi, value);
    let (fi2, pass) = run_filters(filters, fi, vi, value);
    if vi == f {
        lemma_run_filters_reject(filters, fi, f, value);
    } else {
        if pass {
            assert forall|k: int|
                ei <= k < extractors.len() && (#[trigger] extractors[k].field_index)
                    == vi implies extract_total(extractors[k], value) by {
                assert(extractors[k].field_index < f);
            }
            lemma_run_extractors_ok(extractors, ei, vi, value, st);
            let stepped = run_extractors(extractors, ei, vi, value, st);
            let ei2 = stepped.0;
            let w = choose|k: int|
                fi <= k < filters.len() && (#[trigger] filters[k].field_index) == f
                    && !filter_passes(filters[k], values[f].1);
            assert forall|k: int|
                fi2 <= k < filters.len() implies (#[trigger] filters[k].field_index) >= vi
                    + 1 by {
                if fi2 < filters.len() {
                    assert(filters[fi2].key() <= filters[k].key());
                }
            }
            assert forall|k: int|
                ei2 <= k < extractors.len() implies (#[trigger] extractors[k].field_index) >= vi
                    + 1 by {
                if ei2 < extractors.len() {
                    assert(extractors[ei2].key() <= extractors[k].key());
                }
            }
            assert(filters[w].field_index == f > vi);
            assert(w >= fi2);
            assert(fi2 <= w < filters.len() && filters[w].field_index == f && !filter_passes(
                filters[w],
                values[f].1,
            ));
            lemma_process_from_rejects(
                filters,
                extractors,
                values,
                vi + 1,
                fi2,
                ei2,
                stepped.1,
                f,
            );
        }
    }
}

/// A line whose field `f` fails a registered filter is reported filtered —
/// whatever the other fields hold — as long as the numeric transforms on
/// the fields before `f` accept their values (a malformed numeric field
/// there fails the line first).
pub proof fn lemma_filter_rejects(p: &LogProcessor, line: Seq<char>, f: int)
    requires
        crate::collector::sorted_by_key(filters_view(p.filters@)),
        crate::collector::sorted_by_key(extractors_view(p.extractors@)),
        line_spec(models(p.log_parser.tokens@), line, 0) is Some,
        ({
            let vals = line_spec(models(p.log_parser.tokens@), line, 0)->Some_0.0;
            &&& 0 <= f < vals.len()
            &&& exists|k: int|
                0 <= k < filters_view(p.filters@).len() && (#[trigger] filters_view(
                    p.filters@,
                )[k].field_index) == f && !filter_passes(filters_view(p.filters@)[k], vals[f].1)
            &&& forall|k: int|
                0 <= k < extractors_view(p.extractors@).len() && (#[trigger] extractors_view(
                    p.extractors@,
                )[k].field_index) < f ==> extract_total(
                    extractors_view(p.extractors@)[k],
                    vals[extractors_view(p.extractors@)[k].field_index].1,
                )
        }),
    ensures
        p.run_line(line) is Reject,
{
    let vals = line_spec(models(p.log_parser.tokens@), line, 0)->Some_0.0;
    lemma_process_from_rejects(
        filters_view(p.filters@),
        extractors_view(p.extractors@),
        vals,
        0,
        0,
        0,
        init_state(p.labels@.len() as int),
        f,
    );
}

} // verus!
