//! Datasets: traces grouped by class, with the length to which traces are padded.

use vstd::prelude::*;

use crate::decimal::{
    all_digits, char_digit_value, char_is_digit, digits_value, is_digit, lemma_decimal,
    lemma_digits_value_take,
};
use crate::fmt::{decimal, push_decimal, string_of};
use crate::tiktok::{chars_of, copy_range};
use crate::trace::{
    decode_trace, encode_trace, lemma_decode_encode, trace_error_text, trace_magic, Trace, TraceError,
    TraceErrorView, TraceView,
};

verus! {

/// Errors while parsing datasets. Paths are held as text.
#[derive(Debug, Clone, PartialEq, Eq)]
pub enum ParseError {
    /// An I/O error, described by its message.
    Io(String),
    /// Invalid file name (for datasets with file name importance).
    InvalidFileName {
        /// The file which is improperly named.
        file: String,
        /// The message from the parser.
        message: String,
    },
    /// Expected to be passed a directory, but was not.
    NotADirectory(String),
    /// File format is incorrect for the given parser.
    InvalidFormat {
        /// The file where the invalid formatting was found.
        file: String,
        /// The line number in the file where invalid formatting was found.
        line: usize,
        /// The message from the parser.
        message: String,
    },
    /// A trace file in the binary trace format could not be read.
    ChaffSerDe(TraceError),
}

/// The mathematical form of a [`ParseError`].
pub enum ParseErrorView {
    Io(Seq<char>),
    InvalidFileName { file: Seq<char>, message: Seq<char> },
    NotADirectory(Seq<char>),
    InvalidFormat { file: Seq<char>, line: usize, message: Seq<char> },
    ChaffSerDe(TraceErrorView),
}

impl View for ParseError {
    type V = ParseErrorView;

    open spec fn view(&self) -> ParseErrorView {
        match self {
            ParseError::Io(m) => ParseErrorView::Io(m@),
            ParseError::InvalidFileName { file, message } => ParseErrorView::InvalidFileName {
                file: file@,
                message: message@,
            },
            ParseError::NotADirectory(p) => ParseErrorView::NotADirectory(p@),
            ParseError::InvalidFormat { file, line, message } => ParseErrorView::InvalidFormat {
                file: file@,
                line: *line,
                message: message@,
            },
            ParseError::ChaffSerDe(e) => ParseErrorView::ChaffSerDe(e@),
        }
    }
}

/// The text of a dataset parsing error.
pub open spec fn parse_error_text(e: ParseErrorView) -> Seq<char> {
    match e {
        ParseErrorView::Io(m) => "io error: "@ + m,
        ParseErrorView::InvalidFileName { file, message } => "error parsing filename for "@ + file
            + ": "@ + message,
        ParseErrorView::NotADirectory(p) => "path is not a directory: "@ + p,
        ParseErrorView::InvalidFormat { file, line, message } => "invalid format in "@ + file
            + " at line "@ + decimal(line as nat) + ": "@ + message,
        ParseErrorView::ChaffSerDe(t) => "trace error: "@ + trace_error_text(t),
    }
}

impl ParseError {
    /// The error as text.
    pub fn to_string(&self) -> (r: String)
        ensures
            r@ == parse_error_text(self@),
    {
        let mut s = String::new();
        match self {
            ParseError::Io(m) => {
                s.append("io error: ");
                s.append(m.as_str());
            },
            ParseError::InvalidFileName { file, message } => {
                s.append("error parsing filename for ");
                s.append(file.as_str());
                s.append(": ");
                s.append(message.as_str());
            },
            ParseError::NotADirectory(p) => {
                s.append("path is not a directory: ");
                s.append(p.as_str());
            },
            ParseError::InvalidFormat { file, line, message } => {
                s.append("invalid format in ");
                s.append(file.as_str());
                s.append(" at line ");
                push_decimal(&mut s, *line as u64);
                s.append(": ");
                s.append(message.as_str());
            },
            ParseError::ChaffSerDe(t) => {
                s.append("trace error: ");
                let inner = t.to_string();
                s.append(inner.as_str());
            },
        }
        s
    }
}

/// The classes of a dataset in order, each with its traces.
pub type Entries = Seq<(Seq<char>, Seq<Trace>)>;

/// The index of the first entry at or after `i` for class `c` (the number of entries if none).
pub open spec fn find_class<T>(entries: Seq<(Seq<char>, Seq<T>)>, c: Seq<char>, i: int) -> int
    decreases entries.len() - i,
{
    if 0 <= i < entries.len() && entries[i].0 != c {
        find_class(entries, c, i + 1)
    } else {
        i
    }
}

/// The traces of class `c`, if the class is present.
pub open spec fn class_traces(entries: Entries, c: Seq<char>) -> Option<Seq<Trace>> {
    let i = find_class(entries, c, 0);
    if 0 <= i < entries.len() {
        Some(entries[i].1)
    } else {
        None
    }
}

/// The entries with `ts` added at the end of class `c`, which is added last if absent.
pub open spec fn with_traces<T>(entries: Seq<(Seq<char>, Seq<T>)>, c: Seq<char>, ts: Seq<T>) -> Seq<(Seq<char>, Seq<T>)> {
    let i = find_class(entries, c, 0);
    if 0 <= i < entries.len() {
        entries.update(i, (c, entries[i].1 + ts))
    } else {
        entries.push((c, ts))
    }
}

/// No class occurs twice.
pub open spec fn distinct_classes<T>(entries: Seq<(Seq<char>, Seq<T>)>) -> bool {
    forall|i: int, j: int| 0 <= i < j < entries.len() ==> entries[i].0 != entries[j].0
}

/// The mathematical form of a list of classes with their traces.
pub open spec fn entries_of<T>(data: Seq<(String, Vec<T>)>) -> Seq<(Seq<char>, Seq<T>)> {
    data.map_values(|e: (String, Vec<T>)| (e.0@, e.1@))
}

proof fn lemma_find_class<T>(entries: Seq<(Seq<char>, Seq<T>)>, c: Seq<char>, i: int)
    requires
        0 <= i <= entries.len(),
    ensures
        i <= find_class(entries, c, i) <= entries.len(),
        find_class(entries, c, i) < entries.len() ==> entries[find_class(entries, c, i)].0 == c,
        forall|j: int| i <= j < find_class(entries, c, i) ==> (#[trigger] entries[j]).0 != c,
    decreases entries.len() - i,
{
    if i < entries.len() && entries[i].0 != c {
        lemma_find_class(entries, c, i + 1);
    }
}

/// The index of the entry of class `c`, or the number of entries if it is absent.
fn find_class_exec<T>(data: &Vec<(String, Vec<T>)>, c: &str) -> (r: usize)
    ensures
        r == find_class(entries_of(data@), c@, 0),
{
    let ghost es = entries_of(data@);
    let key = c.to_owned();
    let mut i: usize = 0;
    while i < data.len()
        invariant
            i <= data.len(),
            key@ == c@,
            es == entries_of(data@),
            find_class(es, c@, 0) == find_class(es, c@, i as int),
        decreases data.len() - i,
    {
        if data[i].0 == key {
            return i;
        }
        i = i + 1;
    }
    i
}

/// Adds traces at the end of class `c` of `data`, adding the class last if absent.
fn add_traces<T>(data: &mut Vec<(String, Vec<T>)>, c: &str, traces: Vec<T>)
    requires
        distinct_classes(entries_of(old(data)@)),
    ensures
        entries_of(final(data)@) == with_traces(entries_of(old(data)@), c@, traces@),
        distinct_classes(entries_of(final(data)@)),
{
    let ghost es = entries_of(data@);
    let ghost added = traces@;
    let i = find_class_exec(data, c);
    proof {
        lemma_find_class(es, c@, 0);
    }
    if i < data.len() {
        let (name, mut ts) = data.remove(i);
        let mut traces = traces;
        ts.append(&mut traces);
        data.insert(i, (name, ts));
        assert(entries_of(data@) =~= with_traces(es, c@, added));
    } else {
        let name = c.to_owned();
        data.push((name, traces));
        assert(entries_of(data@) =~= with_traces(es, c@, added));
    }
}

/// Adding traces to a class appends them to that class's traces (a new class starts with them)
/// and leaves every other class as it was.
pub proof fn lemma_with_traces_lookup(entries: Entries, c: Seq<char>, ts: Seq<Trace>, d: Seq<char>)
    requires
        distinct_classes(entries),
    ensures
        distinct_classes(with_traces(entries, c, ts)),
        class_traces(with_traces(entries, c, ts), c) == Some(
            match class_traces(entries, c) {
                Some(old) => old + ts,
                None => ts,
            },
        ),
        d != c ==> class_traces(with_traces(entries, d, ts), c) == class_traces(entries, c),
{
    lemma_find_class(entries, c, 0);
    lemma_find_class(entries, d, 0);
    let i = find_class(entries, c, 0);
    let w = with_traces(entries, c, ts);
    assert forall|j: int| 0 <= j < i implies (#[trigger] w[j]).0 != c by {
        assert(w[j] == entries[j]);
    }
    lemma_find_class_is(w, c, 0, i);
    assert forall|x: int, y: int| 0 <= x < y < w.len() implies w[x].0 != w[y].0 by {
        if i < entries.len() {
            if x != i && y != i {
                assert(w[x] == entries[x] && w[y] == entries[y]);
            } else if x == i {
                assert(w[y] == entries[y]);
                assert(entries[x].0 == c);
            } else {
                assert(w[x] == entries[x]);
                assert(entries[y].0 == c);
            }
        } else {
            if y < entries.len() {
                assert(w[x] == entries[x] && w[y] == entries[y]);
            } else {
                assert(w[x] == entries[x]);
            }
        }
    }
    if d != c {
        let j = find_class(entries, d, 0);
        let wd = with_traces(entries, d, ts);
        assert forall|k: int| 0 <= k < i implies (#[trigger] wd[k]).0 != c by {
            if k != j {
                assert(wd[k] == entries[k]);
            }
        }
        if i < entries.len() {
            if i == j {
                assert(entries[i].0 == c && entries[j].0 == d);
            }
            assert(wd[i] == entries[i]);
            lemma_find_class_is(wd, c, 0, i);
        } else {
            assert forall|k: int| 0 <= k < wd.len() implies (#[trigger] wd[k]).0 != c by {
                if k != j {
                    assert(wd[k] == entries[k]);
                }
            }
            lemma_find_class_is(wd, c, 0, wd.len() as int);
        }
    }
}

/// The first index of class `c` is the index before which no entry is of class `c` and which
/// is of class `c` or the end.
proof fn lemma_find_class_is<T>(entries: Seq<(Seq<char>, Seq<T>)>, c: Seq<char>, i: int, k: int)
    requires
        0 <= i <= k <= entries.len(),
        forall|j: int| 0 <= j < k ==> (#[trigger] entries[j]).0 != c,
        k == entries.len() || entries[k].0 == c,
    ensures
        find_class(entries, c, i) == k,
    decreases k - i,
{
    if i < k {
        lemma_find_class_is(entries, c, i + 1, k);
    }
}

/// A dataset: traces grouped by class, and the length to which its traces are padded with zeros.
#[derive(Debug)]
pub struct Dataset {
    data: Vec<(String, Vec<Trace>)>,
    pad_to: usize,
}

impl Dataset {
    /// The classes, in order, each with its traces.
    pub closed spec fn entries(&self) -> Entries {
        entries_of(self.data@)
    }

    /// The length to which traces are padded.
    pub closed spec fn pad(&self) -> usize {
        self.pad_to
    }

    #[verifier::type_invariant]
    spec fn inv(&self) -> bool {
        distinct_classes(entries_of(self.data@))
    }

    /// The class names, in order.
    pub fn classes(&self) -> (r: Vec<&String>)
        ensures
            r@.len() == self.entries().len(),
            forall|i: int| 0 <= i < r@.len() ==> (#[trigger] r@[i])@ == self.entries()[i].0,
    {
        let mut r: Vec<&String> = Vec::new();
        let mut i: usize = 0;
        while i < self.data.len()
            invariant
                i <= self.data.len(),
                r@.len() == i,
                forall|j: int| 0 <= j < i ==> (#[trigger] r@[j])@ == self.entries()[j].0,
            decreases self.data.len() - i,
        {
            r.push(&self.data[i].0);
            i = i + 1;
        }
        r
    }

    /// The length to which the dataset's traces are padded with zeros.
    pub fn get_pad_to(&self) -> (r: usize)
        ensures
            r == self.pad(),
    {
        self.pad_to
    }

    /// The classes with their traces.
    pub fn get_dataset(&self) -> (r: &Vec<(String, Vec<Trace>)>)
        ensures
            entries_of(r@) == self.entries(),
    {
        &self.data
    }

    /// The traces of a class, if the dataset has it.
    pub fn get_class(&self, class: &String) -> (r: Option<&Vec<Trace>>)
        ensures
            match class_traces(self.entries(), class@) {
                None => r is None,
                Some(ts) => r is Some && r->0@ == ts,
            },
    {
        let mut i: usize = 0;
        while i < self.data.len()
            invariant
                i <= self.data.len(),
                find_class(self.entries(), class@, 0) == find_class(self.entries(), class@, i as int),
            decreases self.data.len() - i,
        {
            if self.data[i].0 == *class {
                return Some(&self.data[i].1);
            }
            i = i + 1;
        }
        None
    }

    /// The trace files of the dataset: for each class and each of its traces, the name
    /// `<class>-<instance>` (the instance counted from 0) and the trace in the binary format.
    /// The first trace whose fields' lengths differ, in that order, gives its `LengthMismatch`
    /// error.
    pub fn dump_files(&self) -> (r: Result<Vec<(String, Vec<u8>)>, TraceError>)
        ensures
            all_traces_wf(self.entries()) ==> r is Ok && files_of(r->Ok_0@) == dataset_files(
                self.entries(),
            ),
            !all_traces_wf(self.entries()) ==> r is Err && exists|i: int, j: int|
                0 <= i < self.entries().len() && 0 <= j < self.entries()[i].1.len() && {
                    let t = #[trigger] self.entries()[i].1[j];
                    &&& !t@.wf()
                    &&& forall|a: int, b: int|
                        0 <= a <= i && 0 <= b < self.entries()[a].1.len() && (a < i || b < j)
                            ==> (#[trigger] self.entries()[a].1[b])@.wf()
                    &&& r->Err_0@ == TraceErrorView::LengthMismatch(
                        t.directions@.len() as usize,
                        t.timing_deltas@.len() as usize,
                        t.sizes@.len() as usize,
                    )
                },
    {
        let ghost es = self.entries();
        let mut out: Vec<(String, Vec<u8>)> = Vec::new();
        let mut i: usize = 0;
        while i < self.data.len()
            invariant
                i <= self.data.len(),
                es == self.entries(),
                files_of(out@) == dataset_files(es.take(i as int)),
                forall|a: int, b: int|
                    0 <= a < i && 0 <= b < es[a].1.len() ==> (#[trigger] es[a].1[b])@.wf(),
            decreases self.data.len() - i,
        {
            let class = &self.data[i].0;
            let traces = &self.data[i].1;
            let ghost before = files_of(out@);
            let mut j: usize = 0;
            while j < traces.len()
                invariant
                    i < self.data.len(),
                    es == self.entries(),
                    class@ == es[i as int].0,
                    traces@ == es[i as int].1,
                    j <= traces.len(),
                    files_of(out@) == before + class_files(es[i as int].0, es[i as int].1.take(
                        j as int,
                    )),
                    forall|b: int| 0 <= b < j ==> (#[trigger] es[i as int].1[b])@.wf(),
                    forall|a: int, b: int|
                        0 <= a < i && 0 <= b < es[a].1.len() ==> (#[trigger] es[a].1[b])@.wf(),
                decreases traces.len() - j,
            {
                let bytes = match traces[j].to_bytes() {
                    Ok(b) => b,
                    Err(e) => {
                        proof {
                            let ii = i as int;
                            let jj = j as int;
                            assert(es[ii].1[jj] == traces@[jj]);
                            assert forall|a: int, b: int|
                                0 <= a <= ii && 0 <= b < es[a].1.len() && (a < ii || b < jj)
                                    implies (#[trigger] es[a].1[b])@.wf() by {
                                if a == ii {
                                    assert(es[ii].1[b]@.wf());
                                }
                            }
                        }
                        return Err(e);
                    },
                };
                let mut name = class.clone();
                name.append("-");
                push_decimal(&mut name, j as u64);
                let ghost prev = files_of(out@);
                out.push((name, bytes));
                proof {
                    assert(files_of(out@) =~= prev.push((name@, bytes@)));
                    assert(es[i as int].1.take(j + 1).drop_last() =~= es[i as int].1.take(j as int));
                    assert(class_files(es[i as int].0, es[i as int].1.take(j + 1)) =~= class_files(
                        es[i as int].0,
                        es[i as int].1.take(j as int),
                    ).push((name@, bytes@)));
                }
                j = j + 1;
            }
            proof {
                assert(es[i as int].1.take(traces@.len() as int) =~= es[i as int].1);
                assert(es.take(i + 1).drop_last() =~= es.take(i as int));
            }
            i = i + 1;
        }
        assert(es.take(self.data@.len() as int) =~= es);
        Ok(out)
    }
}

/// Every trace of every class has fields of one length.
pub open spec fn all_traces_wf(es: Entries) -> bool {
    forall|i: int, j: int| 0 <= i < es.len() && 0 <= j < es[i].1.len() ==> (#[trigger] es[i].1[j])@.wf()
}

/// The mathematical form of a list of files.
pub open spec fn files_of(files: Seq<(String, Vec<u8>)>) -> Seq<(Seq<char>, Seq<u8>)> {
    files.map_values(|f: (String, Vec<u8>)| (f.0@, f.1@))
}

/// The files of one class: `<class>-<instance>` and the trace in the binary format.
pub open spec fn class_files(c: Seq<char>, ts: Seq<Trace>) -> Seq<(Seq<char>, Seq<u8>)> {
    Seq::new(ts.len(), |i: int| (c + "-"@ + decimal(i as nat), encode_trace(ts[i]@)))
}

/// The files of all classes, class by class.
pub open spec fn dataset_files(es: Entries) -> Seq<(Seq<char>, Seq<u8>)>
    decreases es.len(),
{
    if es.len() == 0 {
        Seq::empty()
    } else {
        dataset_files(es.drop_last()) + class_files(es.last().0, es.last().1)
    }
}

/// Builds a [`Dataset`] class by class.
#[derive(Debug)]
pub struct DatasetBuilder {
    data: Vec<(String, Vec<Trace>)>,
    pad_to: usize,
}

impl DatasetBuilder {
    /// The classes added so far, in order, each with its traces.
    pub closed spec fn entries(&self) -> Entries {
        entries_of(self.data@)
    }

    /// The length to which traces will be padded.
    pub closed spec fn pad(&self) -> usize {
        self.pad_to
    }

    #[verifier::type_invariant]
    spec fn inv(&self) -> bool {
        distinct_classes(entries_of(self.data@))
    }

    /// A builder with no classes.
    pub fn new(pad_to: usize) -> (r: Self)
        ensures
            r.entries() == Seq::<(Seq<char>, Seq<Trace>)>::empty(),
            r.pad() == pad_to,
    {
        let r = DatasetBuilder { data: Vec::new(), pad_to };
        assert(entries_of(r.data@) =~= Seq::<(Seq<char>, Seq<Trace>)>::empty());
        r
    }

    /// Adds a trace at the end of a class, adding the class if it is new.
    pub fn push_to_class(&mut self, class: &str, trace: Trace)
        ensures
            final(self).entries() == with_traces(old(self).entries(), class@, seq![trace]),
            final(self).pad() == old(self).pad(),
    {
        proof {
            use_type_invariant(&*self);
        }
        let mut traces: Vec<Trace> = Vec::new();
        traces.push(trace);
        assert(traces@ =~= seq![trace]);
        let mut data: Vec<(String, Vec<Trace>)> = Vec::new();
        std::mem::swap(&mut data, &mut self.data);
        add_traces(&mut data, class, traces);
        self.data = data;
    }

    /// Adds traces at the end of a class, adding the class (even with no traces) if it is new.
    pub fn extend_class(&mut self, class: &str, traces: Vec<Trace>)
        ensures
            final(self).entries() == with_traces(old(self).entries(), class@, traces@),
            final(self).pad() == old(self).pad(),
    {
        proof {
            use_type_invariant(&*self);
        }
        let mut data: Vec<(String, Vec<Trace>)> = Vec::new();
        std::mem::swap(&mut data, &mut self.data);
        add_traces(&mut data, class, traces);
        self.data = data;
    }

    /// Sets the length to which traces will be padded.
    pub fn set_pad_to(&mut self, pad_to: usize)
        ensures
            final(self).entries() == old(self).entries(),
            final(self).pad() == pad_to,
    {
        proof {
            use_type_invariant(&*self);
        }
        self.pad_to = pad_to;
    }

    /// The dataset of the classes added.
    pub fn build(self) -> (r: Dataset)
        ensures
            r.entries() == self.entries(),
            r.pad() == self.pad(),
    {
        proof {
            use_type_invariant(&self);
        }
        Dataset { data: self.data, pad_to: self.pad_to }
    }
}

/// The number of hyphens in `s`.
pub open spec fn hyphen_count(s: Seq<char>) -> nat
    decreases s.len(),
{
    if s.len() == 0 {
        0
    } else {
        hyphen_count(s.drop_last()) + (if s.last() == '-' {
            1nat
        } else {
            0nat
        })
    }
}

/// An unsigned integer in the syntax of Rust's `usize::from_str`: an optional `+` and at least
/// one digit, worth at most `usize::MAX`.
pub open spec fn parse_usize(s: Seq<char>) -> Option<usize> {
    let ds = if s.len() > 0 && s[0] == '+' {
        s.drop_first()
    } else {
        s
    };
    if ds.len() == 0 || !all_digits(ds) || digits_value(ds) > usize::MAX {
        None
    } else {
        Some(digits_value(ds) as usize)
    }
}

/// The class and instance of a trace file named `<class>-<instance>`: names that do not hold
/// exactly one hyphen are skipped (`None`); otherwise the instance must be an unsigned integer.
pub open spec fn file_name_parts(name: Seq<char>) -> Option<Option<(Seq<char>, usize)>> {
    if hyphen_count(name) != 1 {
        None
    } else {
        let k = choose|k: int| 0 <= k < name.len() && name[k] == '-';
        match parse_usize(name.subrange(k + 1, name.len() as int)) {
            None => Some(None),
            Some(n) => Some(Some((name.subrange(0, k), n))),
        }
    }
}

proof fn lemma_hyphen_count_take(s: Seq<char>, i: int)
    requires
        0 <= i < s.len(),
    ensures
        hyphen_count(s.take(i + 1)) == hyphen_count(s.take(i)) + (if s[i] == '-' {
            1nat
        } else {
            0nat
        }),
{
    assert(s.take(i + 1).drop_last() =~= s.take(i));
}

proof fn lemma_hyphen_count_split(s: Seq<char>, k: int)
    requires
        0 <= k <= s.len(),
    ensures
        hyphen_count(s) == hyphen_count(s.take(k)) + hyphen_count(s.skip(k)),
    decreases s.len(),
{
    if k == s.len() {
        assert(s.take(k) =~= s);
        assert(s.skip(k) =~= Seq::<char>::empty());
    } else {
        lemma_hyphen_count_split(s.drop_last(), k);
        assert(s.drop_last().take(k) =~= s.take(k));
        assert(s.skip(k).drop_last() =~= s.drop_last().skip(k));
    }
}

proof fn lemma_hyphen_count_zero(s: Seq<char>, j: int)
    requires
        hyphen_count(s) == 0,
        0 <= j < s.len(),
    ensures
        s[j] != '-',
    decreases s.len(),
{
    if j < s.len() - 1 {
        lemma_hyphen_count_zero(s.drop_last(), j);
    }
}

proof fn lemma_digits_no_hyphen(s: Seq<char>)
    requires
        all_digits(s),
    ensures
        hyphen_count(s) == 0,
        forall|j: int| 0 <= j < s.len() ==> s[j] != '-' && s[j] != '+',
    decreases s.len(),
{
    assert forall|j: int| 0 <= j < s.len() implies s[j] != '-' && s[j] != '+' by {
        assert(is_digit(s[j]));
    }
    if s.len() > 0 {
        assert(all_digits(s.drop_last()));
        lemma_digits_no_hyphen(s.drop_last());
        assert(s.last() != '-');
    }
}

/// The name of a dumped trace file gives back its class and instance, and its bytes give back
/// its trace, when the class holds no hyphen and the trace is well formed with fewer than 2^32
/// packets.
pub proof fn lemma_dump_file_round_trip(c: Seq<char>, ts: Seq<Trace>, i: int)
    requires
        hyphen_count(c) == 0,
        0 <= i < ts.len(),
        i <= usize::MAX,
        ts[i]@.wf(),
        ts[i]@.len() <= u32::MAX,
    ensures
        file_name_parts(class_files(c, ts)[i].0) == Some(Some((c, i as usize))),
        decode_trace(class_files(c, ts)[i].1) == Ok::<TraceView, TraceErrorView>(ts[i]@),
{
    lemma_decode_encode(ts[i]@);
    let d = decimal(i as nat);
    lemma_decimal(i as nat);
    lemma_digits_no_hyphen(d);
    let name = c + "-"@ + d;
    assert(class_files(c, ts)[i].0 == name);
    reveal_strlit("-");
    let h = c + "-"@;
    assert(h.drop_last() =~= c);
    assert(hyphen_count(h) == 1);
    assert(name.take(h.len() as int) =~= h);
    assert(name.skip(h.len() as int) =~= d);
    lemma_hyphen_count_split(name, h.len() as int);
    assert(hyphen_count(name) == 1);
    let k = choose|k: int| 0 <= k < name.len() && name[k] == '-';
    assert(name[c.len() as int] == '-');
    assert(k == c.len()) by {
        if k < c.len() {
            assert(name[k] == c[k]);
            lemma_hyphen_count_zero(c, k);
        } else if k > c.len() {
            assert(name[k] == d[k - c.len() - 1]);
        }
    }
    assert(name.subrange(k + 1, name.len() as int) =~= d);
    assert(name.subrange(0, k) =~= c);
    assert(d[0] != '+');
    assert(parse_usize(d) == Some(i as usize));
}

/// Parses an unsigned integer (see `parse_usize`).
pub fn parse_usize_chars(s: &Vec<char>) -> (r: Option<usize>)
    ensures
        r == parse_usize(s@),
{
    let n = s.len();
    let ds = if n > 0 && s[0] == '+' {
        copy_range(s, 1, n)
    } else {
        copy_range(s, 0, n)
    };
    assert(ds@ =~= (if s@.len() > 0 && s@[0] == '+' {
        s@.drop_first()
    } else {
        s@
    }));
    if ds.len() == 0 {
        return None;
    }
    let mut acc: u128 = 0;
    let mut i: usize = 0;
    assert(ds@.take(0) =~= Seq::<char>::empty());
    while i < ds.len()
        invariant
            i <= ds.len(),
            ds@ == (if s@.len() > 0 && s@[0] == '+' {
                s@.drop_first()
            } else {
                s@
            }),
            forall|j: int| 0 <= j < i ==> is_digit(#[trigger] ds@[j]),
            acc == digits_value(ds@.take(i as int)),
            acc <= usize::MAX,
        decreases ds.len() - i,
    {
        if !char_is_digit(ds[i]) {
            assert(!is_digit(ds@[i as int]));
            assert(!all_digits(ds@));
            return None;
        }
        proof {
            lemma_digits_value_take(ds@, i as int);
        }
        let d = char_digit_value(ds[i]);
        acc = acc * 10 + d as u128;
        assert(acc == digits_value(ds@.take(i + 1)));
        if acc > usize::MAX as u128 {
            proof {
                assert(all_digits(ds@) ==> digits_value(ds@) >= digits_value(ds@.take(i + 1))) by {
                    if all_digits(ds@) {
                        crate::decimal::lemma_digits_value_prefix_monotonic(
                            ds@,
                            i + 1,
                            ds@.len() as int,
                        );
                        assert(ds@.take(ds@.len() as int) =~= ds@);
                    }
                }
            }
            return None;
        }
        i = i + 1;
    }
    assert(ds@.take(ds@.len() as int) =~= ds@);
    Some(acc as usize)
}

/// The class and instance of a trace file's name (see `file_name_parts`): `Ok(None)` for a name
/// to skip, and an `InvalidFileName` error naming `path` where the instance is no integer.
pub fn parse_file_name(path: &str, name: &str) -> (r: Result<Option<(String, usize)>, ParseError>)
    ensures
        match file_name_parts(name@) {
            None => r == Ok::<Option<(String, usize)>, ParseError>(None),
            Some(None) => r is Err && r->Err_0@ == (ParseErrorView::InvalidFileName {
                file: path@,
                message: "expected two unsigned integers separated by hyphens"@,
            }),
            Some(Some((c, n))) => r matches Ok(Some((cs, m))) && cs@ == c && m == n,
        },
{
    let v = chars_of(name);
    let n = v.len();
    let mut count: usize = 0;
    let mut k: usize = 0;
    let mut i: usize = 0;
    assert(v@.take(0) =~= Seq::<char>::empty());
    while i < n
        invariant
            i <= n == v@.len(),
            count == hyphen_count(v@.take(i as int)),
            count <= i,
            count >= 1 ==> k < i && v@[k as int] == '-' && hyphen_count(v@.take(k as int)) == 0,
        decreases n - i,
    {
        proof {
            lemma_hyphen_count_take(v@, i as int);
        }
        if v[i] == '-' {
            if count == 0 {
                k = i;
            }
            count = count + 1;
        }
        i = i + 1;
    }
    assert(v@.take(n as int) =~= v@);
    if count != 1 {
        return Ok(None);
    }
    proof {
        lemma_hyphen_count_split(v@, k as int);
        lemma_hyphen_count_split(v@.skip(k as int), 1);
        assert(v@.skip(k as int).take(1) =~= seq!['-']);
        assert(hyphen_count(seq!['-']) == 1) by {
            assert(seq!['-'].drop_last() =~= Seq::<char>::empty());
        }
        let kk = choose|kk: int| 0 <= kk < v@.len() && v@[kk] == '-';
        if kk < k {
            lemma_hyphen_count_zero(v@.take(k as int), kk);
        } else if kk > k {
            assert(v@.skip(k as int).skip(1) =~= v@.skip(k + 1));
            lemma_hyphen_count_zero(v@.skip(k + 1), kk - k - 1);
        }
    }
    let rest = copy_range(&v, k + 1, n);
    match parse_usize_chars(&rest) {
        None => {
            let mut f = String::new();
            f.append(path);
            let mut m = String::new();
            m.append("expected two unsigned integers separated by hyphens");
            Err(ParseError::InvalidFileName { file: f, message: m })
        },
        Some(instance) => {
            let class_chars = copy_range(&v, 0, k);
            let class = string_of(&class_chars);
            Ok(Some((class, instance)))
        },
    }
}

/// Whether file bytes start with the magic bytes of the binary trace format.
pub fn is_chaff_trace(bytes: &[u8]) -> (r: bool)
    ensures
        r == (bytes@.len() >= 5 && bytes@.take(5) == trace_magic()),
{
    if bytes.len() < 5 {
        return false;
    }
    let r = bytes[0] == 67u8 && bytes[1] == 72u8 && bytes[2] == 65u8 && bytes[3] == 70u8
        && bytes[4] == 70u8;
    assert(r ==> bytes@.take(5) =~= trace_magic());
    assert(bytes@.take(5) == trace_magic() ==> bytes@.take(5)[0] == 67u8 && bytes@.take(5)[1]
        == 72u8 && bytes@.take(5)[2] == 65u8 && bytes@.take(5)[3] == 70u8 && bytes@.take(5)[4]
        == 70u8);
    r
}

/// The index of the first item at or after `i` whose instance exceeds `v` (the number of items
/// if none does).
pub open spec fn first_after(s: Seq<(usize, Trace)>, v: usize, i: int) -> int
    decreases s.len() - i,
{
    if 0 <= i < s.len() && s[i].0 <= v {
        first_after(s, v, i + 1)
    } else {
        i
    }
}

/// The items sorted by instance, items of equal instance kept in their order: each item in
/// turn is inserted after every item already sorted whose instance is no greater.
pub open spec fn sort_by_instance(s: Seq<(usize, Trace)>) -> Seq<(usize, Trace)>
    decreases s.len(),
{
    if s.len() == 0 {
        Seq::empty()
    } else {
        let r = sort_by_instance(s.drop_last());
        r.insert(first_after(r, s.last().0, 0), s.last())
    }
}

/// The items are in non-decreasing order of instance.
pub open spec fn by_instance(s: Seq<(usize, Trace)>) -> bool {
    forall|i: int, j: int| 0 <= i < j < s.len() ==> #[trigger] s[i].0 <= #[trigger] s[j].0
}

proof fn lemma_first_after_sorted(s: Seq<(usize, Trace)>, v: usize, i: int)
    requires
        by_instance(s),
        0 <= i <= s.len(),
        forall|j: int| 0 <= j < i ==> #[trigger] s[j].0 <= v,
    ensures
        i <= first_after(s, v, i) <= s.len(),
        forall|j: int| 0 <= j < first_after(s, v, i) ==> #[trigger] s[j].0 <= v,
        forall|j: int| first_after(s, v, i) <= j < s.len() ==> #[trigger] s[j].0 > v,
    decreases s.len() - i,
{
    if i < s.len() && s[i].0 <= v {
        lemma_first_after_sorted(s, v, i + 1);
    } else if i < s.len() {
        assert forall|j: int| i <= j < s.len() implies #[trigger] s[j].0 > v by {
            if j > i {
                assert(s[i].0 <= s[j].0);
            }
        }
    }
}

/// Sorting by instance gives the same items, in non-decreasing order of instance.
pub proof fn lemma_sort_by_instance(s: Seq<(usize, Trace)>)
    ensures
        sort_by_instance(s).len() == s.len(),
        by_instance(sort_by_instance(s)),
        sort_by_instance(s).to_multiset() == s.to_multiset(),
    decreases s.len(),
{
    broadcast use vstd::seq_lib::group_to_multiset_ensures;

    if s.len() > 0 {
        lemma_sort_by_instance(s.drop_last());
        let r = sort_by_instance(s.drop_last());
        let x = s.last();
        lemma_first_after_sorted(r, x.0, 0);
        let k = first_after(r, x.0, 0);
        let t = r.insert(k, x);
        r.insert_ensures(k, x);
        assert(t == sort_by_instance(s));
        assert forall|i: int, j: int| 0 <= i < j < t.len() implies #[trigger] t[i].0 <= #[trigger] t[j].0 by {
            if j < k {
            } else if j == k {
                assert(t[i] == r[i]);
            } else if i < k {
                assert(t[j] == r[j - 1]);
            } else if i == k {
                assert(t[j] == r[j - 1]);
            } else {
                assert(t[i] == r[i - 1]);
                assert(t[j] == r[j - 1]);
            }
        }
        assert(s.drop_last().push(x) =~= s);
    }
}

/// Whether an item is of instance `v`.
pub open spec fn of_instance(v: usize) -> spec_fn((usize, Trace)) -> bool {
    |x: (usize, Trace)| x.0 == v
}

proof fn lemma_filter_none(b: Seq<(usize, Trace)>, p: spec_fn((usize, Trace)) -> bool)
    requires
        forall|j: int| 0 <= j < b.len() ==> !p(#[trigger] b[j]),
    ensures
        b.filter(p) == Seq::<(usize, Trace)>::empty(),
    decreases b.len(),
{
    reveal(Seq::filter);
    if b.len() > 0 {
        assert forall|j: int| 0 <= j < b.drop_last().len() implies !p(#[trigger] b.drop_last()[j]) by {
            assert(b.drop_last()[j] == b[j]);
        }
        lemma_filter_none(b.drop_last(), p);
        assert(!p(b[b.len() - 1]));
    }
}

/// Sorting by instance is stable: the items of each instance keep their order.
pub proof fn lemma_sort_by_instance_stable(s: Seq<(usize, Trace)>, v: usize)
    ensures
        sort_by_instance(s).filter(of_instance(v)) == s.filter(of_instance(v)),
    decreases s.len(),
{
    reveal(Seq::filter);
    if s.len() > 0 {
        lemma_sort_by_instance_stable(s.drop_last(), v);
        lemma_sort_by_instance(s.drop_last());
        let p = of_instance(v);
        let r = sort_by_instance(s.drop_last());
        let x = s.last();
        lemma_first_after_sorted(r, x.0, 0);
        let k = first_after(r, x.0, 0);
        let a = r.subrange(0, k);
        let b = r.subrange(k, r.len() as int);
        assert(r =~= a + b);
        Seq::filter_distributes_over_add(a, b, p);
        Seq::filter_distributes_over_add(a.push(x), b, p);
        assert(r.insert(k, x) == a.push(x) + b);
        assert(a.push(x).drop_last() =~= a);
        assert(s.drop_last().push(x) =~= s);
        if p(x) {
            assert forall|j: int| 0 <= j < b.len() implies !p(#[trigger] b[j]) by {
                assert(b[j] == r[k + j]);
            }
            lemma_filter_none(b, p);
            assert(r.filter(p) =~= a.filter(p));
            assert(r.insert(k, x).filter(p) =~= a.filter(p).push(x));
        } else {
            assert(r.insert(k, x).filter(p) =~= r.filter(p));
        }
    }
}

/// The items grouped by class, classes in the order they first occur, items in their order.
pub open spec fn group_by_class(es: Seq<(Seq<char>, usize, Trace)>) -> Seq<
    (Seq<char>, Seq<(usize, Trace)>),
>
    decreases es.len(),
{
    if es.len() == 0 {
        Seq::empty()
    } else {
        with_traces(group_by_class(es.drop_last()), es.last().0, seq![(es.last().1, es.last().2)])
    }
}

/// The traces of a group, without their instances.
pub open spec fn strip_instances(s: Seq<(usize, Trace)>) -> Seq<Trace> {
    s.map_values(|p: (usize, Trace)| p.1)
}

/// The dataset of traces with their classes and instances: grouped by class, and each class's
/// traces sorted by instance.
pub open spec fn instances_dataset(es: Seq<(Seq<char>, usize, Trace)>) -> Entries {
    group_by_class(es).map_values(
        |g: (Seq<char>, Seq<(usize, Trace)>)| (g.0, strip_instances(sort_by_instance(g.1))),
    )
}

/// The mathematical form of traces with their class and instance.
pub open spec fn instances_of(entries: Seq<(String, usize, Trace)>) -> Seq<(Seq<char>, usize, Trace)> {
    entries.map_values(|e: (String, usize, Trace)| (e.0@, e.1, e.2))
}

proof fn lemma_first_after(s: Seq<(usize, Trace)>, v: usize, i: int)
    requires
        0 <= i <= s.len(),
    ensures
        i <= first_after(s, v, i) <= s.len(),
    decreases s.len() - i,
{
    if i < s.len() && s[i].0 <= v {
        lemma_first_after(s, v, i + 1);
    }
}

/// The items of `v` in reverse order.
fn into_reversed<T>(v: Vec<T>) -> (r: Vec<T>)
    ensures
        r@.len() == v@.len(),
        forall|j: int| 0 <= j < v@.len() ==> #[trigger] r@[j] == v@[v@.len() - 1 - j],
{
    let ghost orig = v@;
    let mut v = v;
    let mut r: Vec<T> = Vec::new();
    while v.len() > 0
        invariant
            v@.len() + r@.len() == orig.len(),
            v@ == orig.take(v@.len() as int),
            forall|j: int| 0 <= j < r@.len() ==> #[trigger] r@[j] == orig[orig.len() - 1 - j],
        decreases v@.len(),
    {
        let x = v.pop().unwrap();
        r.push(x);
        assert(v@ =~= orig.take(v@.len() as int));
    }
    r
}

/// Sorts items by instance (see `sort_by_instance`).
fn sort_items(items: Vec<(usize, Trace)>) -> (r: Vec<(usize, Trace)>)
    ensures
        r@ == sort_by_instance(items@),
        by_instance(r@),
        r@.to_multiset() == items@.to_multiset(),
        forall|v: usize| #[trigger] r@.filter(of_instance(v)) == items@.filter(of_instance(v)),
{
    proof {
        lemma_sort_by_instance(items@);
        assert forall|v: usize| #[trigger] sort_by_instance(items@).filter(of_instance(v)) == items@.filter(
            of_instance(v),
        ) by {
            lemma_sort_by_instance_stable(items@, v);
        }
    }
    let ghost all = items@;
    let mut out: Vec<(usize, Trace)> = Vec::new();
    let mut rest = into_reversed(items);
    let ghost mut done: int = 0;
    assert(all.take(0) =~= Seq::<(usize, Trace)>::empty());
    while rest.len() > 0
        invariant
            0 <= done <= all.len(),
            rest@.len() == all.len() - done,
            forall|j: int| 0 <= j < rest@.len() ==> #[trigger] rest@[j] == all[all.len() - 1 - j],
            out@ == sort_by_instance(all.take(done)),
        decreases rest@.len(),
    {
        let x = rest.pop().unwrap();
        assert(x == all[done]);
        let mut k: usize = 0;
        while k < out.len() && out[k].0 <= x.0
            invariant
                k <= out.len(),
                first_after(out@, x.0, 0) == first_after(out@, x.0, k as int),
            decreases out.len() - k,
        {
            k = k + 1;
        }
        proof {
            assert(all.take(done + 1).drop_last() =~= all.take(done));
            assert(all.take(done + 1).last() == x);
        }
        out.insert(k, x);
        proof {
            done = done + 1;
        }
    }
    assert(all.take(done) =~= all);
    out
}

/// The traces of a class with their instances, counted from 0.
pub open spec fn numbered(ts: Seq<Trace>) -> Seq<(usize, Trace)> {
    Seq::new(ts.len(), |i: int| (i as usize, ts[i]))
}

/// The class, instance and trace of each file of a dump, in the order of
/// [`dataset_files`]: class by class, instances counted from 0.
pub open spec fn dumped_entries(es: Entries) -> Seq<(Seq<char>, usize, Trace)>
    decreases es.len(),
{
    if es.len() == 0 {
        Seq::empty()
    } else {
        dumped_entries(es.drop_last()) + numbered(es.last().1).map_values(
            |p: (usize, Trace)| (es.last().0, p.0, p.1),
        )
    }
}

proof fn lemma_find_absent<T>(g: Seq<(Seq<char>, Seq<T>)>, c: Seq<char>)
    requires
        forall|i: int| 0 <= i < g.len() ==> (#[trigger] g[i]).0 != c,
    ensures
        find_class(g, c, 0) == g.len(),
{
    lemma_find_class(g, c, 0);
}

proof fn lemma_find_last<T>(g: Seq<(Seq<char>, Seq<T>)>, c: Seq<char>, x: Seq<T>)
    requires
        forall|i: int| 0 <= i < g.len() ==> (#[trigger] g[i]).0 != c,
    ensures
        find_class(g.push((c, x)), c, 0) == g.len(),
{
    let h = g.push((c, x));
    lemma_find_class(h, c, 0);
    let k = find_class(h, c, 0);
    assert(h[g.len() as int].0 == c);
    if k < g.len() {
        assert(h[k] == g[k]);
    }
}

proof fn lemma_first_after_all(s: Seq<(usize, Trace)>, v: usize, i: int)
    requires
        0 <= i <= s.len(),
        forall|j: int| i <= j < s.len() ==> (#[trigger] s[j]).0 <= v,
    ensures
        first_after(s, v, i) == s.len(),
    decreases s.len() - i,
{
    if i < s.len() {
        lemma_first_after_all(s, v, i + 1);
    }
}

/// Items already in order of increasing instance stay as they are.
proof fn lemma_sort_numbered(ts: Seq<Trace>)
    requires
        ts.len() <= usize::MAX + 1,
    ensures
        sort_by_instance(numbered(ts)) == numbered(ts),
    decreases ts.len(),
{
    let n = numbered(ts);
    if ts.len() > 0 {
        let m = ts.len() - 1;
        assert(n.drop_last() =~= numbered(ts.drop_last()));
        lemma_sort_numbered(ts.drop_last());
        let r = numbered(ts.drop_last());
        assert forall|j: int| 0 <= j < r.len() implies (#[trigger] r[j]).0 <= n.last().0 by {}
        lemma_first_after_all(r, n.last().0, 0);
        assert(r.insert(r.len() as int, n.last()) =~= n);
    }
}

/// Grouping the files of one class, added after classes that are all different from it,
/// gives one more group: the class with its numbered traces.
proof fn lemma_group_class(
    p: Seq<(Seq<char>, usize, Trace)>,
    g: Seq<(Seq<char>, Seq<(usize, Trace)>)>,
    c: Seq<char>,
    ts: Seq<Trace>,
    j: int,
)
    requires
        group_by_class(p) == g,
        forall|i: int| 0 <= i < g.len() ==> (#[trigger] g[i]).0 != c,
        0 < j <= ts.len(),
    ensures
        group_by_class(
            p + numbered(ts).map_values(|q: (usize, Trace)| (c, q.0, q.1)).take(j),
        ) == g.push((c, numbered(ts).take(j))),
    decreases j,
{
    let e = numbered(ts).map_values(|q: (usize, Trace)| (c, q.0, q.1));
    let s = p + e.take(j);
    assert(s.drop_last() =~= p + e.take(j - 1));
    assert(s.last() == (c, (j - 1) as usize, ts[j - 1]));
    if j == 1 {
        assert(p + e.take(0) =~= p);
        lemma_find_absent(g, c);
        assert(seq![((j - 1) as usize, ts[j - 1])] =~= numbered(ts).take(j));
    } else {
        lemma_group_class(p, g, c, ts, j - 1);
        lemma_find_last(g, c, numbered(ts).take(j - 1));
        assert(numbered(ts).take(j - 1) + seq![((j - 1) as usize, ts[j - 1])] =~= numbered(ts).take(j));
        assert(g.push((c, numbered(ts).take(j - 1))).update(
            g.len() as int,
            (c, numbered(ts).take(j - 1) + seq![((j - 1) as usize, ts[j - 1])]),
        ) =~= g.push((c, numbered(ts).take(j))));
    }
}

/// The files of a dump, grouped by class, give each non-empty class with its numbered traces.
proof fn lemma_group_dumped(es: Entries)
    requires
        distinct_classes(es),
        forall|k: int| 0 <= k < es.len() ==> 0 < (#[trigger] es[k]).1.len() <= usize::MAX,
    ensures
        group_by_class(dumped_entries(es)) == es.map_values(
            |e: (Seq<char>, Seq<Trace>)| (e.0, numbered(e.1)),
        ),
    decreases es.len(),
{
    let f = |e: (Seq<char>, Seq<Trace>)| (e.0, numbered(e.1));
    if es.len() == 0 {
        assert(es.map_values(f) =~= Seq::<(Seq<char>, Seq<(usize, Trace)>)>::empty());
    } else {
        let prev = es.drop_last();
        assert forall|k: int| 0 <= k < prev.len() implies 0 < (#[trigger] prev[k]).1.len() <= usize::MAX by {
            assert(prev[k] == es[k]);
        }
        lemma_group_dumped(prev);
        let g = prev.map_values(f);
        let (c, ts) = es.last();
        assert forall|i: int| 0 <= i < g.len() implies (#[trigger] g[i]).0 != c by {
            assert(g[i].0 == es[i].0);
            assert(es[es.len() - 1].0 == c);
        }
        assert(es[es.len() - 1] == es.last());
        let e = numbered(ts).map_values(|q: (usize, Trace)| (c, q.0, q.1));
        lemma_group_class(dumped_entries(prev), g, c, ts, ts.len() as int);
        assert(e.take(ts.len() as int) =~= e);
        assert(numbered(ts).take(ts.len() as int) =~= numbered(ts));
        assert(g.push((c, numbered(ts))) =~= es.map_values(f));
    }
}

/// Reading back the files of a dump gives back the dataset: the name of each file gives its
/// class and instance, its bytes give its trace, and grouping those by class, each class's
/// traces sorted by instance, gives back the classes and traces dumped. This holds when no class
/// is empty (an empty class has no file) or holds a hyphen, classes are distinct, and every trace
/// is well formed with fewer than 2^32 packets.
pub proof fn lemma_dump_read_back(es: Entries)
    requires
        distinct_classes(es),
        forall|k: int| 0 <= k < es.len() ==> 0 < (#[trigger] es[k]).1.len() <= usize::MAX,
        forall|k: int| 0 <= k < es.len() ==> hyphen_count((#[trigger] es[k]).0) == 0,
        forall|k: int, i: int|
            0 <= k < es.len() && 0 <= i < es[k].1.len() ==> (#[trigger] es[k].1[i])@.wf()
                && es[k].1[i]@.len() <= u32::MAX,
    ensures
        dataset_files(es).len() == dumped_entries(es).len(),
        forall|j: int|
            0 <= j < dataset_files(es).len() ==> {
                let (c, i, t) = #[trigger] dumped_entries(es)[j];
                &&& file_name_parts(dataset_files(es)[j].0) == Some(Some((c, i)))
                &&& decode_trace(dataset_files(es)[j].1) == Ok::<TraceView, TraceErrorView>(t@)
            },
        instances_dataset(dumped_entries(es)) == es,
    decreases es.len(),
{
    if es.len() > 0 {
        let prev = es.drop_last();
        assert forall|k: int| 0 <= k < prev.len() implies 0 < (#[trigger] prev[k]).1.len() <= usize::MAX
            && hyphen_count(prev[k].0) == 0 by {
            assert(prev[k] == es[k]);
        }
        assert forall|k: int, i: int|
            0 <= k < prev.len() && 0 <= i < prev[k].1.len() implies (#[trigger] prev[k].1[i])@.wf()
                && prev[k].1[i]@.len() <= u32::MAX by {
            assert(prev[k] == es[k]);
        }
        lemma_dump_read_back(prev);
        let (c, ts) = es.last();
        assert(es[es.len() - 1] == es.last());
        let off = dataset_files(prev).len();
        assert forall|j: int|
            0 <= j < dataset_files(es).len() implies {
                let (c2, i, t) = #[trigger] dumped_entries(es)[j];
                &&& file_name_parts(dataset_files(es)[j].0) == Some(Some((c2, i)))
                &&& decode_trace(dataset_files(es)[j].1) == Ok::<TraceView, TraceErrorView>(t@)
            } by {
            if j < off {
                assert(dumped_entries(es)[j] == dumped_entries(prev)[j]);
                assert(dataset_files(es)[j] == dataset_files(prev)[j]);
                let (c2, i, t) = dumped_entries(prev)[j];
                assert(file_name_parts(dataset_files(prev)[j].0) == Some(Some((c2, i))));
            } else {
                let i = j - off;
                assert(dumped_entries(es)[j] == (c, i as usize, ts[i]));
                assert(dataset_files(es)[j] == class_files(c, ts)[i]);
                lemma_dump_file_round_trip(c, ts, i);
            }
        }
    }
    let f = |e: (Seq<char>, Seq<Trace>)| (e.0, numbered(e.1));
    lemma_group_dumped(es);
    let g = group_by_class(dumped_entries(es));
    assert forall|k: int| 0 <= k < es.len() implies #[trigger] instances_dataset(dumped_entries(es))[k]
        == es[k] by {
        assert(g[k] == f(es[k]));
        lemma_sort_numbered(es[k].1);
        assert(strip_instances(numbered(es[k].1)) =~= es[k].1);
    }
    assert(instances_dataset(dumped_entries(es)) =~= es);
}

/// Groups traces with their class and instance into a dataset (see `instances_dataset`) whose
/// traces are padded to `pad_to`.
pub fn group_instances(entries: Vec<(String, usize, Trace)>, pad_to: usize) -> (r: Dataset)
    ensures
        r.entries() == instances_dataset(instances_of(entries@)),
        r.pad() == pad_to,
{
    let ghost all = instances_of(entries@);
    let mut groups: Vec<(String, Vec<(usize, Trace)>)> = Vec::new();
    let mut rest = into_reversed(entries);
    let ghost mut done: int = 0;
    assert(all.take(0) =~= Seq::<(Seq<char>, usize, Trace)>::empty());
    assert(entries_of(groups@) =~= Seq::<(Seq<char>, Seq<(usize, Trace)>)>::empty());
    while rest.len() > 0
        invariant
            0 <= done <= all.len(),
            rest@.len() == all.len() - done,
            forall|j: int|
                0 <= j < rest@.len() ==> (#[trigger] rest@[j]).0@ == all[all.len() - 1 - j].0
                    && rest@[j].1 == all[all.len() - 1 - j].1 && rest@[j].2 == all[all.len() - 1
                    - j].2,
            entries_of(groups@) == group_by_class(all.take(done)),
            distinct_classes(entries_of(groups@)),
        decreases rest@.len(),
    {
        let (name, instance, trace) = rest.pop().unwrap();
        let mut item: Vec<(usize, Trace)> = Vec::new();
        item.push((instance, trace));
        proof {
            assert(all.take(done + 1).drop_last() =~= all.take(done));
            assert(item@ =~= seq![(all[done].1, all[done].2)]);
        }
        add_traces(&mut groups, name.as_str(), item);
        proof {
            done = done + 1;
        }
    }
    assert(all.take(done) =~= all);
    let ghost grouped = entries_of(groups@);
    let mut data: Vec<(String, Vec<Trace>)> = Vec::new();
    let mut rest_groups = into_reversed(groups);
    let ghost mut gdone: int = 0;
    while rest_groups.len() > 0
        invariant
            0 <= gdone <= grouped.len(),
            grouped == group_by_class(all),
            distinct_classes(grouped),
            rest_groups@.len() == grouped.len() - gdone,
            forall|j: int|
                0 <= j < rest_groups@.len() ==> (#[trigger] rest_groups@[j]).0@ == grouped[grouped.len()
                    - 1 - j].0 && rest_groups@[j].1@ == grouped[grouped.len() - 1 - j].1,
            entries_of(data@) == instances_dataset(all).take(gdone),
        decreases rest_groups@.len(),
    {
        let (name, items) = rest_groups.pop().unwrap();
        let sorted = sort_items(items);
        let mut traces: Vec<Trace> = Vec::new();
        let mut sorted_rest = into_reversed(sorted);
        let ghost sv = sort_by_instance(grouped[gdone].1);
        while sorted_rest.len() > 0
            invariant
                sorted_rest@.len() <= sv.len(),
                forall|j: int|
                    0 <= j < sorted_rest@.len() ==> #[trigger] sorted_rest@[j] == sv[sv.len() - 1
                        - j],
                traces@ == strip_instances(sv).take(sv.len() - sorted_rest@.len()),
            decreases sorted_rest@.len(),
        {
            let ghost before = sv.len() - sorted_rest@.len();
            let (_, t) = sorted_rest.pop().unwrap();
            traces.push(t);
            assert(traces@ =~= strip_instances(sv).take(before + 1));
        }
        assert(traces@ =~= strip_instances(sv));
        let ghost prev = entries_of(data@);
        data.push((name, traces));
        proof {
            assert(entries_of(data@) =~= prev.push((grouped[gdone].0, strip_instances(sv))));
            gdone = gdone + 1;
            assert(entries_of(data@) =~= instances_dataset(all).take(gdone));
        }
    }
    assert(instances_dataset(all).take(gdone) =~= instances_dataset(all));
    Dataset { data, pad_to }
}

} // verus!
