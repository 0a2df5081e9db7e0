//! The pipeline builder: resolves field names to positions, assigns label
//! slots in first-seen order without duplicates, auto-registers the
//! extractors for recognized field names, and hands out a `LogProcessor`
//! with filters and extractors stable-sorted by field position.

use vstd::prelude::*;

use crate::log_parser::models;
use crate::log_parser::strings_view;
use crate::log_parser::tokens_wf;
use crate::log_parser::LogParser;
use crate::log_parser::TokenModel;
use crate::processor::extractor_wf;
use crate::processor::extractors_view;
use crate::processor::filters_view;
use crate::processor::needs_label;
use crate::processor::Extractor;
use crate::processor::ExtractorFunc;
use crate::processor::ExtractorFuncModel;
use crate::processor::ExtractorModel;
use crate::processor::Filter;
use crate::processor::FilterFunc;
use crate::processor::FilterModel;
use crate::processor::LogProcessor;
use crate::text::str_eq;

verus! {

/// The state the tail engine shares with the scrape side: whether a watch
/// stands, and how many lines failed parsing.  The counter vectors and
/// histograms themselves live in the metrics sink outside the library and
/// are driven by the updates the engine hands out.
pub struct LogData {
    pub active: bool,
    pub error_count: u64,
}

impl LogData {
    pub fn new() -> (d: LogData)
        ensures
            !d.active,
            d.error_count == 0,
    {
        LogData { active: false, error_count: 0 }
    }
}

/// First position of `name` in `items` at or after `i`.
pub open spec fn first_index_of(items: Seq<Seq<char>>, name: Seq<char>, i: int) -> Option<int>
    decreases items.len() - i when 0 <= i <= items.len()
{
    if i >= items.len() {
        None
    } else if items[i] == name {
        Some(i)
    } else {
        first_index_of(items, name, i + 1)
    }
}

pub proof fn lemma_first_index_bounds(items: Seq<Seq<char>>, name: Seq<char>, i: int)
    requires
        0 <= i <= items.len(),
    ensures
        match first_index_of(items, name, i) {
            None => true,
            Some(k) => i <= k < items.len() && items[k] == name,
        },
    decreases items.len() - i,
{
    if i < items.len() && items[i] != name {
        lemma_first_index_bounds(items, name, i + 1);
    }
}

/// Label-slot allocation: an existing name keeps its slot, a new name is
/// appended and gets the next index.
pub open spec fn label_spec(labels: Seq<Seq<char>>, name: Seq<char>) -> (Seq<Seq<char>>, int) {
    match first_index_of(labels, name, 0) {
        Some(i) => (labels, i),
        None => (labels.push(name), labels.len() as int),
    }
}

/// First position of `name@` in `items@`.
fn position_of(items: &Vec<String>, name: &str) -> (r: Option<usize>)
    ensures
        match r {
            None => first_index_of(strings_view(items@), name@, 0) is None,
            Some(k) => first_index_of(strings_view(items@), name@, 0) == Some(k as int),
        },
{
    let ghost iv = strings_view(items@);
    let mut i: usize = 0;
    while i < items.len()
        invariant
            iv == strings_view(items@),
            i <= items@.len(),
            first_index_of(iv, name@, 0) == first_index_of(iv, name@, i as int),
        decreases items@.len() - i,
    {
        proof {
            assert(iv[i as int] == items@[i as int]@);
        }
        if str_eq(items[i].as_str(), name) {
            return Some(i);
        }
        i += 1;
    }
    None
}

/// Everything that determines a builder: the compiled grammar, its field
/// names, the watched path, and the registered filters, extractors and
/// label slots.
pub struct BuilderModel {
    pub tokens: Seq<TokenModel>,
    pub fields: Seq<Seq<char>>,
    pub filename: Seq<char>,
    pub filters: Seq<FilterModel>,
    pub extractors: Seq<ExtractorModel>,
    pub labels: Seq<Seq<char>>,
}

/// Collects filter and extractor declarations against a compiled format
/// before the processor is built.
pub struct LogCollectorBuilder {
    log_parser: LogParser,
    filename: String,
    filters: Vec<Filter>,
    extractors: Vec<Extractor>,
    labels: Vec<String>,
}

impl View for LogCollectorBuilder {
    type V = BuilderModel;

    closed spec fn view(&self) -> BuilderModel {
        BuilderModel {
            tokens: models(self.log_parser.tokens@),
            fields: strings_view(self.log_parser.fields@),
            filename: self.filename@,
            filters: filters_view(self.filters@),
            extractors: extractors_view(self.extractors@),
            labels: strings_view(self.labels@),
        }
    }
}

/// Appends one auto-registered extractor, allocating its label slot.
pub open spec fn auto_add(
    acc: (Seq<ExtractorModel>, Seq<Seq<char>>),
    pos: int,
    label: Option<Seq<char>>,
    func: ExtractorFuncModel,
) -> (Seq<ExtractorModel>, Seq<Seq<char>>) {
    match label {
        Some(name) => (
            acc.0.push(
                ExtractorModel {
                    label: Some((name, label_spec(acc.1, name).1)),
                    field_index: pos,
                    func,
                },
            ),
            label_spec(acc.1, name).0,
        ),
        None => (acc.0.push(ExtractorModel { label: None, field_index: pos, func }), acc.1),
    }
}

/// What one field name contributes to the auto-registered pipeline:
/// `remote_user` a `user` label, `status` a `status` label, `request_time`
/// the duration observation, `host` a `vhost` label, `body_bytes_sent` the
/// response-size observation; any other name, nothing.
pub open spec fn auto_step(
    acc: (Seq<ExtractorModel>, Seq<Seq<char>>),
    field: Seq<char>,
    pos: int,
) -> (Seq<ExtractorModel>, Seq<Seq<char>>) {
    if field == "remote_user"@ {
        auto_add(acc, pos, Some("user"@), ExtractorFuncModel::User)
    } else if field == "status"@ {
        auto_add(acc, pos, Some("status"@), ExtractorFuncModel::Status)
    } else if field == "request_time"@ {
        auto_add(acc, pos, None, ExtractorFuncModel::Duration)
    } else if field == "host"@ {
        auto_add(acc, pos, Some("vhost"@), ExtractorFuncModel::Host)
    } else if field == "body_bytes_sent"@ {
        auto_add(acc, pos, None, ExtractorFuncModel::ResponseBodySize)
    } else {
        acc
    }
}

/// The auto-registered extractors and labels for the first `i` fields.
pub open spec fn auto_regs(fields: Seq<Seq<char>>, i: int) -> (
    Seq<ExtractorModel>,
    Seq<Seq<char>>,
)
    decreases i,
{
    if i <= 0 {
        (Seq::empty(), Seq::empty())
    } else {
        auto_step(auto_regs(fields, i - 1), fields[i - 1], i - 1)
    }
}

pub proof fn lemma_extractors_view_push(es: Seq<Extractor>, e: Extractor)
    ensures
        extractors_view(es.push(e)) =~= extractors_view(es).push(e@),
{
    let p = es.push(e);
    assert forall|i: int| 0 <= i < p.len() implies extractors_view(p)[i] == extractors_view(
        es,
    ).push(e@)[i] by {
        if i < es.len() {
            assert(p[i] == es[i]);
        } else {
            assert(p[i] == e);
        }
    }
}

pub proof fn lemma_filters_view_push(fs: Seq<Filter>, f: Filter)
    ensures
        filters_view(fs.push(f)) =~= filters_view(fs).push(f@),
{
    let p = fs.push(f);
    assert forall|i: int| 0 <= i < p.len() implies filters_view(p)[i] == filters_view(fs).push(
        f@,
    )[i] by {
        if i < fs.len() {
            assert(p[i] == fs[i]);
        } else {
            assert(p[i] == f);
        }
    }
}

pub proof fn lemma_strings_view_push(ss: Seq<String>, x: String)
    ensures
        strings_view(ss.push(x)) =~= strings_view(ss).push(x@),
{
    let p = ss.push(x);
    assert forall|i: int| 0 <= i < p.len() implies strings_view(p)[i] == strings_view(ss).push(
        x@,
    )[i] by {
        if i < ss.len() {
            assert(p[i] == ss[i]);
        } else {
            assert(p[i] == x);
        }
    }
}

impl LogCollectorBuilder {
    /// Every registered extractor's label slot lies within the label list,
    /// and the grammar's literal runs are nonempty.
    pub open spec fn wf(&self) -> bool {
        &&& tokens_wf(self@.tokens)
        &&& forall|i: int|
            0 <= i < self@.extractors.len() ==> extractor_wf(
                #[trigger] self@.extractors[i],
                self@.labels.len() as int,
            )
    }

    /// The index of `label` in the list, adding it if it is not there.
    pub fn label(labels: &mut Vec<String>, label: &str) -> (idx: usize)
        ensures
            strings_view(final(labels)@) == label_spec(strings_view(old(labels)@), label@).0,
            idx as int == label_spec(strings_view(old(labels)@), label@).1,
            idx < final(labels)@.len(),
            final(labels)@.len() >= old(labels)@.len(),
    {
        proof {
            lemma_first_index_bounds(strings_view(labels@), label@, 0);
        }
        match position_of(labels, label) {
            Some(i) => i,
            None => {
                let ghost before = labels@;
                labels.push(label.to_owned());
                proof {
                    lemma_strings_view_push(before, labels@.last());
                    assert(strings_view(labels@) =~= strings_view(before).push(label@));
                }
                labels.len() - 1
            },
        }
    }
}


/// Ordering key for the stable sorts: the field position an item is
/// registered at.
pub trait Keyed {
    spec fn key(&self) -> int;
}

impl Keyed for FilterModel {
    open spec fn key(&self) -> int {
        self.field_index
    }
}

impl Keyed for ExtractorModel {
    open spec fn key(&self) -> int {
        self.field_index
    }
}

pub open spec fn sorted_by_key<T: Keyed>(s: Seq<T>) -> bool {
    forall|i: int, j: int| 0 <= i < j < s.len() ==> #[trigger] s[i].key() <= #[trigger] s[j].key()
}

/// Stable insertion: `x` goes after every element whose key is at most
/// `x`'s.
pub open spec fn insert_by_key<T: Keyed>(s: Seq<T>, x: T) -> Seq<T>
    decreases s.len(),
{
    if s.len() == 0 {
        seq![x]
    } else if s.last().key() <= x.key() {
        s.push(x)
    } else {
        insert_by_key(s.drop_last(), x).push(s.last())
    }
}

/// Stable sort by key: ascending, with equal keys keeping their relative
/// order.
pub open spec fn sort_by_key<T: Keyed>(s: Seq<T>) -> Seq<T>
    decreases s.len(),
{
    if s.len() == 0 {
        s
    } else {
        insert_by_key(sort_by_key(s.drop_last()), s.last())
    }
}

pub proof fn lemma_insert_by_key_len<T: Keyed>(s: Seq<T>, x: T)
    ensures
        insert_by_key(s, x).len() == s.len() + 1,
    decreases s.len(),
{
    if s.len() > 0 && !(s.last().key() <= x.key()) {
        lemma_insert_by_key_len(s.drop_last(), x);
    }
}

/// Where the stable insertion puts `x` in a sorted run: right at the split
/// between keys at most `x`'s and keys above it.
pub proof fn lemma_insert_position<T: Keyed>(s: Seq<T>, x: T, j: int)
    requires
        0 <= j <= s.len(),
        forall|k: int| 0 <= k < j ==> (#[trigger] s[k].key()) <= x.key(),
        forall|k: int| j <= k < s.len() ==> (#[trigger] s[k].key()) > x.key(),
    ensures
        insert_by_key(s, x) =~= s.subrange(0, j) + seq![x] + s.subrange(j, s.len() as int),
    decreases s.len(),
{
    if s.len() == 0 {
    } else if s.last().key() <= x.key() {
        assert(j == s.len()) by {
            if j < s.len() {
                assert(s[s.len() - 1].key() > x.key());
            }
        }
        assert(s.subrange(0, j) =~= s);
    } else {
        let s1 = s.drop_last();
        assert(j <= s1.len()) by {
            if j == s.len() {
                assert(s[s.len() - 1].key() <= x.key());
            }
        }
        assert forall|k: int| 0 <= k < j implies (#[trigger] s1[k].key()) <= x.key() by {
            assert(s1[k] == s[k]);
        }
        assert forall|k: int| j <= k < s1.len() implies (#[trigger] s1[k].key()) > x.key() by {
            assert(s1[k] == s[k]);
        }
        lemma_insert_position(s1, x, j);
        assert(insert_by_key(s, x) =~= s.subrange(0, j) + seq![x] + s.subrange(
            j,
            s.len() as int,
        ));
    }
}

pub proof fn lemma_insert_pred<T: Keyed>(s: Seq<T>, x: T, pred: spec_fn(T) -> bool)
    requires
        forall|i: int| 0 <= i < s.len() ==> pred(#[trigger] s[i]),
        pred(x),
    ensures
        forall|i: int|
            0 <= i < insert_by_key(s, x).len() ==> pred(#[trigger] insert_by_key(s, x)[i]),
    decreases s.len(),
{
    let r = insert_by_key(s, x);
    if s.len() == 0 {
        assert forall|i: int| 0 <= i < r.len() implies pred(#[trigger] r[i]) by {
            assert(r[i] == x);
        }
    } else if s.last().key() <= x.key() {
        assert forall|i: int| 0 <= i < r.len() implies pred(#[trigger] r[i]) by {
            if i < s.len() {
                assert(r[i] == s[i]);
            } else {
                assert(r[i] == x);
            }
        }
    } else {
        let s1 = s.drop_last();
        assert forall|i: int| 0 <= i < s1.len() implies pred(#[trigger] s1[i]) by {
            assert(s1[i] == s[i]);
        }
        lemma_insert_pred(s1, x, pred);
        let r1 = insert_by_key(s1, x);
        assert forall|i: int| 0 <= i < r.len() implies pred(#[trigger] r[i]) by {
            if i < r1.len() {
                assert(r[i] == r1[i]);
            } else {
                assert(r[i] == s.last());
                assert(s.last() == s[s.len() - 1]);
            }
        }
    }
}

pub proof fn lemma_insert_sorted<T: Keyed>(s: Seq<T>, x: T)
    requires
        sorted_by_key(s),
    ensures
        sorted_by_key(insert_by_key(s, x)),
    decreases s.len(),
{
    let r = insert_by_key(s, x);
    if s.len() == 0 {
    } else if s.last().key() <= x.key() {
        assert forall|i: int, j: int| 0 <= i < j < r.len() implies (#[trigger] r[i].key())
            <= (#[trigger] r[j].key()) by {
            if j < s.len() {
                assert(r[i] == s[i] && r[j] == s[j]);
            } else {
                assert(r[j] == x);
                if i < s.len() - 1 {
                    assert(s[i].key() <= s[s.len() - 1].key());
                }
            }
        }
    } else {
        let s1 = s.drop_last();
        assert forall|i: int, j: int| 0 <= i < j < s1.len() implies (#[trigger] s1[i].key())
            <= (#[trigger] s1[j].key()) by {
            assert(s1[i] == s[i] && s1[j] == s[j]);
        }
        lemma_insert_sorted(s1, x);
        let r1 = insert_by_key(s1, x);
        lemma_insert_by_key_len(s1, x);
        lemma_insert_pred(s1, x, |y: T| y.key() <= s[s.len() - 1].key());
        assert forall|i: int, j: int| 0 <= i < j < r.len() implies (#[trigger] r[i].key())
            <= (#[trigger] r[j].key()) by {
            if j < r1.len() {
                assert(r[i] == r1[i] && r[j] == r1[j]);
            } else {
                assert(r[j] == s.last());
                assert(r[i] == r1[i]);
            }
        }
    }
}

pub proof fn lemma_sort_sorted<T: Keyed>(s: Seq<T>)
    ensures
        sorted_by_key(sort_by_key(s)),
    decreases s.len(),
{
    if s.len() > 0 {
        lemma_sort_sorted(s.drop_last());
        lemma_insert_sorted(sort_by_key(s.drop_last()), s.last());
    }
}

/// A property of every element survives the stable sort.
pub proof fn lemma_sort_pred<T: Keyed>(s: Seq<T>, pred: spec_fn(T) -> bool)
    requires
        forall|i: int| 0 <= i < s.len() ==> pred(#[trigger] s[i]),
    ensures
        forall|i: int| 0 <= i < sort_by_key(s).len() ==> pred(#[trigger] sort_by_key(s)[i]),
    decreases s.len(),
{
    if s.len() > 0 {
        let s1 = s.drop_last();
        assert forall|i: int| 0 <= i < s1.len() implies pred(#[trigger] s1[i]) by {
            assert(s1[i] == s[i]);
        }
        lemma_sort_pred(s1, pred);
        assert(pred(s[s.len() - 1]));
        lemma_insert_pred(sort_by_key(s1), s.last(), pred);
    }
}

/// Stable insertion sort of the filter list, proved against `sort_by_key`
/// over the filters' models.
fn sort_filters(v: Vec<Filter>) -> (r: Vec<Filter>)
    ensures
        filters_view(r@) == sort_by_key(filters_view(v@)),
{
    let ghost orig = filters_view(v@);
    let mut src = v;
    let mut r: Vec<Filter> = Vec::new();
    let ghost mut consumed: int = 0;
    proof {
        assert(filters_view(src@) =~= orig.skip(0));
        assert(filters_view(r@) =~= Seq::<FilterModel>::empty());
        assert(orig.take(0) =~= Seq::<FilterModel>::empty());
    }
    while src.len() > 0
        invariant
            0 <= consumed <= orig.len(),
            src@.len() == orig.len() - consumed,
            filters_view(src@) == orig.skip(consumed),
            filters_view(r@) == sort_by_key(orig.take(consumed)),
            sorted_by_key(filters_view(r@)),
        decreases src@.len(),
    {
        let ghost src_before = src@;
        let ghost rv = filters_view(r@);
        let x = src.remove(0);
        proof {
            assert(x == src_before[0]);
            assert(filters_view(src_before)[0] == src_before[0]@);
            assert(orig.skip(consumed)[0] == orig[consumed]);
            assert(x@ == orig[consumed]);
            assert forall|k: int| 0 <= k < src@.len() implies filters_view(src@)[k] == orig.skip(
                consumed + 1,
            )[k] by {
                assert(src@[k] == src_before[k + 1]);
                assert(filters_view(src_before)[k + 1] == orig.skip(consumed)[k + 1]);
            }
            assert(filters_view(src@) =~= orig.skip(consumed + 1));
        }
        let mut j: usize = 0;
        while j < r.len() && r[j].field_index <= x.field_index
            invariant
                j <= r@.len(),
                rv == filters_view(r@),
                forall|k: int| 0 <= k < j ==> (#[trigger] rv[k].key()) <= x@.key(),
            decreases r@.len() - j,
        {
            proof {
                assert(rv[j as int] == r@[j as int]@);
            }
            j += 1;
        }
        proof {
            assert forall|k: int| j <= k < rv.len() implies (#[trigger] rv[k].key())
                > x@.key() by {
                if j < rv.len() {
                    assert(rv[j as int] == r@[j as int]@);
                    assert(rv[j as int].key() <= rv[k].key());
                }
            }
            lemma_insert_position(rv, x@, j as int);
            lemma_insert_sorted(rv, x@);
        }
        let ghost r_before = r@;
        r.insert(j, x);
        proof {
            assert forall|k: int| 0 <= k < r@.len() implies filters_view(r@)[k] == (rv.subrange(
                0,
                j as int,
            ) + seq![x@] + rv.subrange(j as int, rv.len() as int))[k] by {
                if k < j {
                    assert(r@[k] == r_before[k]);
                } else if k == j {
                    assert(r@[k] == x);
                } else {
                    assert(r@[k] == r_before[k - 1]);
                }
            }
            assert(filters_view(r@) =~= insert_by_key(rv, x@));
            assert(orig.take(consumed + 1).drop_last() =~= orig.take(consumed));
            assert(orig.take(consumed + 1).last() == orig[consumed]);
            consumed = consumed + 1;
        }
    }
    proof {
        assert(orig.take(orig.len() as int) =~= orig);
    }
    r
}

/// Stable insertion sort of the extractor list, proved against
/// `sort_by_key` over the extractors' models.
fn sort_extractors(v: Vec<Extractor>) -> (r: Vec<Extractor>)
    ensures
        extractors_view(r@) == sort_by_key(extractors_view(v@)),
{
    let ghost orig = extractors_view(v@);
    let mut src = v;
    let mut r: Vec<Extractor> = Vec::new();
    let ghost mut consumed: int = 0;
    proof {
        assert(extractors_view(src@) =~= orig.skip(0));
        assert(extractors_view(r@) =~= Seq::<ExtractorModel>::empty());
        assert(orig.take(0) =~= Seq::<ExtractorModel>::empty());
    }
    while src.len() > 0
        invariant
            0 <= consumed <= orig.len(),
            src@.len() == orig.len() - consumed,
            extractors_view(src@) == orig.skip(consumed),
            extractors_view(r@) == sort_by_key(orig.take(consumed)),
            sorted_by_key(extractors_view(r@)),
        decreases src@.len(),
    {
        let ghost src_before = src@;
        let ghost rv = extractors_view(r@);
        let x = src.remove(0);
        proof {
            assert(x == src_before[0]);
            assert(extractors_view(src_before)[0] == src_before[0]@);
            assert(orig.skip(consumed)[0] == orig[consumed]);
            assert(x@ == orig[consumed]);
            assert forall|k: int| 0 <= k < src@.len() implies extractors_view(src@)[k]
                == orig.skip(consumed + 1)[k] by {
                assert(src@[k] == src_before[k + 1]);
                assert(extractors_view(src_before)[k + 1] == orig.skip(consumed)[k + 1]);
            }
            assert(extractors_view(src@) =~= orig.skip(consumed + 1));
        }
        let mut j: usize = 0;
        while j < r.len() && r[j].field_index <= x.field_index
            invariant
                j <= r@.len(),
                rv == extractors_view(r@),
                forall|k: int| 0 <= k < j ==> (#[trigger] rv[k].key()) <= x@.key(),
            decreases r@.len() - j,
        {
            proof {
                assert(rv[j as int] == r@[j as int]@);
            }
            j += 1;
        }
        proof {
            assert forall|k: int| j <= k < rv.len() implies (#[trigger] rv[k].key())
                > x@.key() by {
                if j < rv.len() {
                    assert(rv[j as int] == r@[j as int]@);
                    assert(rv[j as int].key() <= rv[k].key());
                }
            }
            lemma_insert_position(rv, x@, j as int);
            lemma_insert_sorted(rv, x@);
        }
        let ghost r_before = r@;
        r.insert(j, x);
        proof {
            assert forall|k: int| 0 <= k < r@.len() implies extractors_view(r@)[k] == (
            rv.subrange(0, j as int) + seq![x@] + rv.subrange(j as int, rv.len() as int))[k] by {
                if k < j {
                    assert(r@[k] == r_before[k]);
                } else if k == j {
                    assert(r@[k] == x);
                } else {
                    assert(r@[k] == r_before[k - 1]);
                }
            }
            assert(extractors_view(r@) =~= insert_by_key(rv, x@));
            assert(orig.take(consumed + 1).drop_last() =~= orig.take(consumed));
            assert(orig.take(consumed + 1).last() == orig[consumed]);
            consumed = consumed + 1;
        }
    }
    proof {
        assert(orig.take(orig.len() as int) =~= orig);
    }
    r
}


impl LogCollectorBuilder {
    /// Compiles the auto-registered pipeline for a format's fields:
    /// exactly `auto_regs` over the field names, in declaration order.
    #[verifier::loop_isolation(false)]
    pub fn new(log_parser: LogParser, filename: String) -> (b: LogCollectorBuilder)
        requires
            tokens_wf(models(log_parser.tokens@)),
        ensures
            b@.tokens == models(log_parser.tokens@),
            b@.fields == strings_view(log_parser.fields@),
            b@.filename == filename@,
            b@.filters =~= Seq::<FilterModel>::empty(),
            b@.extractors == auto_regs(
                strings_view(log_parser.fields@),
                log_parser.fields@.len() as int,
            ).0,
            b@.labels == auto_regs(
                strings_view(log_parser.fields@),
                log_parser.fields@.len() as int,
            ).1,
            b.wf(),
    {
        let ghost fv = strings_view(log_parser.fields@);
        let mut labels: Vec<String> = Vec::new();
        let mut extractors: Vec<Extractor> = Vec::new();
        proof {
            assert(strings_view(labels@) =~= Seq::<Seq<char>>::empty());
            assert(extractors_view(extractors@) =~= Seq::<ExtractorModel>::empty());
        }
        let mut i: usize = 0;
        while i < log_parser.fields.len()
            invariant
                i <= log_parser.fields@.len(),
                extractors_view(extractors@) == auto_regs(fv, i as int).0,
                strings_view(labels@) == auto_regs(fv, i as int).1,
                forall|k: int|
                    0 <= k < extractors@.len() ==> extractor_wf(
                        #[trigger] extractors_view(extractors@)[k],
                        labels@.len() as int,
                    ),
            decreases log_parser.fields@.len() - i,
        {
            let ghost acc = (extractors_view(extractors@), strings_view(labels@));
            let ghost nlab0 = labels@.len() as int;
            proof {
                assert(fv[i as int] == log_parser.fields@[i as int]@);
            }
            let field = &log_parser.fields[i];
            if str_eq(field.as_str(), "remote_user") {
                let idx = Self::label(&mut labels, "user");
                let e = Extractor {
                    label: Some(("user".to_owned(), idx)),
                    field_index: i,
                    func: ExtractorFunc::User,
                };
                proof {
                    lemma_extractors_view_push(extractors@, e);
                }
                extractors.push(e);
            } else if str_eq(field.as_str(), "status") {
                let idx = Self::label(&mut labels, "status");
                let e = Extractor {
                    label: Some(("status".to_owned(), idx)),
                    field_index: i,
                    func: ExtractorFunc::Status,
                };
                proof {
                    lemma_extractors_view_push(extractors@, e);
                }
                extractors.push(e);
            } else if str_eq(field.as_str(), "request_time") {
                let e = Extractor { label: None, field_index: i, func: ExtractorFunc::Duration };
                proof {
                    lemma_extractors_view_push(extractors@, e);
                }
                extractors.push(e);
            } else if str_eq(field.as_str(), "host") {
                let idx = Self::label(&mut labels, "vhost");
                let e = Extractor {
                    label: Some(("vhost".to_owned(), idx)),
                    field_index: i,
                    func: ExtractorFunc::Host,
                };
                proof {
                    lemma_extractors_view_push(extractors@, e);
                }
                extractors.push(e);
            } else if str_eq(field.as_str(), "body_bytes_sent") {
                let e = Extractor {
                    label: None,
                    field_index: i,
                    func: ExtractorFunc::ResponseBodySize,
                };
                proof {
                    lemma_extractors_view_push(extractors@, e);
                }
                extractors.push(e);
            }
            proof {
                assert(auto_regs(fv, i + 1) == auto_step(acc, fv[i as int], i as int));
            }
            i += 1;
        }
        proof {
            assert(fv.len() == log_parser.fields@.len());
        }
        LogCollectorBuilder {
            log_parser,
            filename,
            filters: Vec::new(),
            extractors,
            labels,
        }
    }

    /// Registers a user filter on the named field: the first field of that
    /// name, or an error when the format has none.
    pub fn add_filter(&mut self, field: String, func: FilterFunc) -> (r: Result<(), ()>)
        ensures
            final(self)@.tokens == old(self)@.tokens,
            final(self)@.fields == old(self)@.fields,
            final(self)@.filename == old(self)@.filename,
            final(self)@.extractors == old(self)@.extractors,
            final(self)@.labels == old(self)@.labels,
            old(self).wf() ==> final(self).wf(),
            match first_index_of(old(self)@.fields, field@, 0) {
                None => r is Err && final(self)@.filters == old(self)@.filters,
                Some(pos) => r is Ok && final(self)@.filters == old(self)@.filters.push(
                    FilterModel { field_index: pos, regex: crate::processor::func_regex(func) },
                ),
            },
    {
        match position_of(&self.log_parser.fields, field.as_str()) {
            None => Err(()),
            Some(i) => {
                let f = Filter { field_index: i, func };
                proof {
                    lemma_filters_view_push(self.filters@, f);
                }
                self.filters.push(f);
                Ok(())
            },
        }
    }

    /// Registers a user extractor on the named field.  The label slot is
    /// allocated first and kept even when the field name turns out to be
    /// unknown and an error comes back.
    pub fn add_extractor(
        &mut self,
        label: Option<String>,
        field: String,
        func: ExtractorFunc,
    ) -> (r: Result<(), ()>)
        ensures
            final(self)@.tokens == old(self)@.tokens,
            final(self)@.fields == old(self)@.fields,
            final(self)@.filename == old(self)@.filename,
            final(self)@.filters == old(self)@.filters,
            final(self)@.labels == (match label {
                Some(l) => label_spec(old(self)@.labels, l@).0,
                None => old(self)@.labels,
            }),
            match first_index_of(old(self)@.fields, field@, 0) {
                None => r is Err && final(self)@.extractors == old(self)@.extractors,
                Some(pos) => r is Ok && final(self)@.extractors == old(self)@.extractors.push(
                    ExtractorModel {
                        label: match label {
                            Some(l) => Some((l@, label_spec(old(self)@.labels, l@).1)),
                            None => None,
                        },
                        field_index: pos,
                        func: func@,
                    },
                ),
            },
            old(self).wf() && (needs_label(func@) ==> label is Some) ==> final(self).wf(),
    {
        let ghost labels0 = strings_view(self.labels@);
        let lab: Option<(String, usize)> = match label {
            Some(l) => {
                let idx = Self::label(&mut self.labels, l.as_str());
                Some((l, idx))
            },
            None => None,
        };
        let r = match position_of(&self.log_parser.fields, field.as_str()) {
            None => Err(()),
            Some(i) => {
                let e = Extractor { label: lab, field_index: i, func };
                proof {
                    lemma_extractors_view_push(self.extractors@, e);
                }
                self.extractors.push(e);
                Ok(())
            },
        };
        proof {
            if old(self).wf() && (needs_label(func@) ==> label is Some) {
                assert(self@.labels.len() >= old(self)@.labels.len());
                assert forall|k: int|
                    0 <= k < self@.extractors.len() implies extractor_wf(
                    #[trigger] self@.extractors[k],
                    self@.labels.len() as int,
                ) by {
                    if k < old(self)@.extractors.len() {
                        assert(self@.extractors[k] == old(self)@.extractors[k]);
                        assert(extractor_wf(
                            old(self)@.extractors[k],
                            old(self)@.labels.len() as int,
                        ));
                    } else {
                        assert(needs_label(self@.extractors[k].func) ==> label is Some);
                    }
                }
            }
        }
        r
    }

    /// Consumes the builder and yields the processor: same grammar, label
    /// slots and path, with filters and extractors stable-sorted by field
    /// position.
    pub fn build_processor(self) -> (p: LogProcessor)
        ensures
            models(p.log_parser.tokens@) == self@.tokens,
            strings_view(p.log_parser.fields@) == self@.fields,
            p.filename@ == self@.filename,
            strings_view(p.labels@) == self@.labels,
            filters_view(p.filters@) == sort_by_key(self@.filters),
            extractors_view(p.extractors@) == sort_by_key(self@.extractors),
            sorted_by_key(filters_view(p.filters@)),
            sorted_by_key(extractors_view(p.extractors@)),
            self.wf() ==> p.wf(),
    {
        let LogCollectorBuilder { log_parser, filename, filters, extractors, labels } = self;
        let ghost nlab = strings_view(labels@).len() as int;
        let sorted_filters = sort_filters(filters);
        let sorted_extractors = sort_extractors(extractors);
        proof {
            lemma_sort_sorted(self@.filters);
            lemma_sort_sorted(self@.extractors);
            if self.wf() {
                lemma_sort_pred(
                    self@.extractors,
                    |e: ExtractorModel| extractor_wf(e, nlab),
                );
            }
        }
        LogProcessor {
            filename,
            log_parser,
            labels,
            filters: sorted_filters,
            extractors: sorted_extractors,
        }
    }

    /// A fresh shared-state record for this pipeline: inactive, no errors
    /// counted yet.
    pub fn build_data(&self) -> (d: LogData)
        ensures
            !d.active,
            d.error_count == 0,
    {
        LogData::new()
    }
}


pub proof fn lemma_first_index_push(items: Seq<Seq<char>>, name: Seq<char>, x: Seq<char>, i: int)
    requires
        0 <= i <= items.len(),
    ensures
        first_index_of(items.push(x), name, i) == (match first_index_of(items, name, i) {
            Some(k) => Some(k),
            None => if x == name {
                Some(items.len() as int)
            } else {
                None
            },
        }),
    decreases items.len() - i,
{
    let p = items.push(x);
    assert(p[items.len() as int] == x);
    if i < items.len() {
        assert(p[i] == items[i]);
        if items[i] != name {
            lemma_first_index_push(items, name, x, i + 1);
        }
    }
}

/// Label slots are never duplicated: asking for the same name again gives
/// the same index and leaves the list alone, and a name that is not yet a
/// label always gets the fresh slot at the end.
pub proof fn lemma_label_dedup(labels: Seq<Seq<char>>, a: Seq<char>, b: Seq<char>)
    ensures
        label_spec(label_spec(labels, a).0, a) == label_spec(labels, a),
        first_index_of(labels, b, 0) is None ==> label_spec(labels, b) == (
            labels.push(b),
            labels.len() as int,
        ),
{
    lemma_first_index_bounds(labels, a, 0);
    match first_index_of(labels, a, 0) {
        Some(k) => {
        },
        None => {
            lemma_first_index_push(labels, a, a, 0);
        },
    }
}

} // verus!
