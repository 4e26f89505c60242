//! Signal values read from a waveform: how they are reported and laid out in
//! tables, and how a scope of the design is found among the scopes of the
//! waveform. Reading the waveform file is left to the caller.
use vstd::prelude::*;

use crate::block::TimeAnnotation;
use crate::dfb::strings_view;
use crate::text::{chars_of, str_contains_char, str_eq, string_from_chars, string_of};

verus! {

/// The decimal digits of `n`, as `to_string` writes an unsigned number.
pub open spec fn decimal(n: nat) -> Seq<char>
    decreases n,
{
    if n < 10 {
        seq![(n + '0' as nat) as char]
    } else {
        decimal(n / 10).push(((n % 10) + '0' as nat) as char)
    }
}

/// Writes an unsigned number in decimal.
pub fn decimal_string(n: u64) -> (r: String)
    ensures
        r@ == decimal(n as nat),
{
    let r = decimal_digits(n);
    string_from_chars(&r)
}

proof fn lemma_decimal_len(n: nat)
    ensures
        decimal(n).len() >= 1,
    decreases n,
{
    if n >= 10 {
        lemma_decimal_len(n / 10);
    }
}

/// The decimal digits of `n` as characters.
pub(crate) fn decimal_digits(n: u64) -> (r: Vec<char>)
    ensures
        r@ == decimal(n as nat),
    decreases n,
{
    let d: u32 = (n % 10) as u32;
    let c: char = match d {
        0 => '0',
        1 => '1',
        2 => '2',
        3 => '3',
        4 => '4',
        5 => '5',
        6 => '6',
        7 => '7',
        8 => '8',
        _ => '9',
    };
    assert(c == ((n % 10) as nat + '0' as nat) as char);
    if n < 10 {
        let mut r: Vec<char> = Vec::new();
        r.push(c);
        assert(r@ =~= decimal(n as nat));
        r
    } else {
        let mut r = decimal_digits(n / 10);
        r.push(c);
        r
    }
}

/// Where a waveform is read from.
pub struct WaveformManager {
    pub waveform_path: String,
}

/// A scope path of the design: no element holds a `.`.
pub open spec fn scope_path_ok(scope: Seq<Seq<char>>) -> bool {
    forall|i: int| 0 <= i < scope.len() ==> !(#[trigger] scope[i]).contains('.')
}

/// The bit width of a signal as reported: its decimal number, or a note that
/// it is unknown.
pub open spec fn width_text(width: Option<u32>) -> Seq<char> {
    match width {
        Some(w) => decimal(w as nat),
        None => "Unknown bit-width"@,
    }
}

/// The report of one value read: (name, (value, bit width, time)).
pub open spec fn value_entry(e: (Seq<char>, Option<u32>, Seq<char>), time: TimeAnnotation) -> (Seq<char>, (Seq<char>, Seq<char>, TimeAnnotation)) {
    (e.0, (e.2, width_text(e.1), time))
}

/// The view of values read: (name, bit width, value).
pub open spec fn read_view(v: Seq<(String, Option<u32>, String)>) -> Seq<(Seq<char>, Option<u32>, Seq<char>)> {
    v.map_values(|e: (String, Option<u32>, String)| (e.0@, e.1, e.2@))
}

/// The view of a report of values.
pub open spec fn report_view(v: Seq<(String, (String, String, TimeAnnotation))>) -> Seq<(Seq<char>, (Seq<char>, Seq<char>, TimeAnnotation))> {
    v.map_values(|e: (String, (String, String, TimeAnnotation))| (e.0@, (e.1.0@, e.1.1@, e.1.2)))
}

impl WaveformManager {
    pub fn new(waveform_path: &str) -> (r: WaveformManager)
        ensures
            r.waveform_path@ == waveform_path@,
    {
        WaveformManager { waveform_path: string_of(waveform_path) }
    }

    /// A copy of the manager.
    pub fn duplicate(&self) -> (r: WaveformManager)
        ensures
            r.waveform_path@ == self.waveform_path@,
    {
        WaveformManager { waveform_path: self.waveform_path.clone() }
    }

    /// Whether no element of a scope path holds a `.`.
    pub fn check_scope_path(scope: &Vec<String>) -> (r: bool)
        ensures
            r == scope_path_ok(strings_view(scope@)),
    {
        let mut i: usize = 0;
        while i < scope.len()
            invariant
                i <= scope@.len(),
                forall|k: int| 0 <= k < i ==> !(#[trigger] strings_view(scope@)[k]).contains('.'),
            decreases scope@.len() - i,
        {
            if str_contains_char(scope[i].as_str(), '.') {
                assert(strings_view(scope@)[i as int] == scope@[i as int]@);
                return false;
            }
            i = i + 1;
        }
        true
    }

    /// The bit width and value of a signal as reported.
    pub fn extract_bit_width_and_value(width: Option<u32>, value: &str) -> (r: (String, String))
        ensures
            r.0@ == width_text(width),
            r.1@ == value@,
    {
        let w = match width {
            Some(w) => decimal_string(w as u64),
            None => string_of("Unknown bit-width"),
        };
        (w, string_of(value))
    }

    /// The report of the values read for the signals of `scope` at `time`:
    /// for each signal its value, its bit width and the time, in the order read.
    pub fn get_signal_value_at_time(
        &mut self,
        scope: &Vec<String>,
        read: &Vec<(String, Option<u32>, String)>,
        time: TimeAnnotation,
    ) -> (r: Vec<(String, (String, String, TimeAnnotation))>)
        requires
            scope_path_ok(strings_view(scope@)),
        ensures
            report_view(r@) == read_view(read@).map_values(|e: (Seq<char>, Option<u32>, Seq<char>)| value_entry(e, time)),
            final(self).waveform_path@ == old(self).waveform_path@,
    {
        let mut r: Vec<(String, (String, String, TimeAnnotation))> = Vec::new();
        let mut i: usize = 0;
        while i < read.len()
            invariant
                i <= read@.len(),
                report_view(r@) == read_view(read@).take(i as int).map_values(
                    |e: (Seq<char>, Option<u32>, Seq<char>)| value_entry(e, time),
                ),
            decreases read@.len() - i,
        {
            let (w, v) = Self::extract_bit_width_and_value(read[i].1, read[i].2.as_str());
            let ghost before = r@;
            r.push((read[i].0.clone(), (v, w, time)));
            assert(report_view(r@) =~= report_view(before).push(value_entry(read_view(read@)[i as int], time)));
            assert(read_view(read@).take(i + 1) =~= read_view(read@).take(i as int).push(read_view(read@)[i as int]));
            i = i + 1;
        }
        assert(read_view(read@).take(read@.len() as int) =~= read_view(read@));
        r
    }

    /// The table of the values read for the signals of `scope` at `time`;
    /// each value is given as it is displayed.
    pub fn display_signal_values_at_time(
        &mut self,
        scope: &Vec<String>,
        read: &Vec<(String, String)>,
        time: TimeAnnotation,
    ) -> (r: String)
        requires
            scope_path_ok(strings_view(scope@)),
        ensures
            r@ == table_text(
                WaveformTable::empty_view(false).add_row(time as usize, pairs_view(read@)),
            ),
            final(self).waveform_path@ == old(self).waveform_path@,
    {
        let mut table = WaveformTable::new(false);
        table.add_row(time as usize, read);
        table.to_string()
    }

    /// The tables of values read for (signal, time) pairs: one table for each
    /// time, in the order the times first occur; the time row is left out when
    /// `ignore_time`.
    pub fn display_signal_values_with_batch(
        &mut self,
        scope: &Vec<String>,
        read: &Vec<((usize, String), String)>,
        ignore_time: bool,
    ) -> (r: String)
        ensures
            r@ == table_text(batch_table(ignore_time, batch_view(read@))),
            final(self).waveform_path@ == old(self).waveform_path@,
    {
        let mut table = WaveformTable::new(ignore_time);
        let mut i: usize = 0;
        while i < read.len()
            invariant
                i <= read@.len(),
                table@ == batch_table(ignore_time, batch_view(read@).take(i as int)),
                table@.wf(),
            decreases read@.len() - i,
        {
            let mut one: Vec<(String, String)> = Vec::new();
            one.push((read[i].0.1.clone(), read[i].1.clone()));
            let ghost t = batch_view(read@);
            assert(t.take(i + 1).drop_last() =~= t.take(i as int));
            assert(pairs_view(one@) =~= seq![(t[i as int].0.1, t[i as int].1)]);
            table.add_row(read[i].0.0, &one);
            i = i + 1;
        }
        assert(batch_view(read@).take(read@.len() as int) =~= batch_view(read@));
        table.to_string()
    }
}

/// The view of (signal, value) pairs.
pub open spec fn pairs_view(v: Seq<(String, String)>) -> Seq<(Seq<char>, Seq<char>)> {
    v.map_values(|e: (String, String)| (e.0@, e.1@))
}

/// The view of values read for (time, signal) pairs.
pub open spec fn batch_view(v: Seq<((usize, String), String)>) -> Seq<((usize, Seq<char>), Seq<char>)> {
    v.map_values(|e: ((usize, String), String)| ((e.0.0, e.0.1@), e.1@))
}

/// The table of values read for (time, signal) pairs, one pair after the other.
pub open spec fn batch_table(ignore_time: bool, v: Seq<((usize, Seq<char>), Seq<char>)>) -> TableView
    decreases v.len(),
{
    if v.len() == 0 {
        WaveformTable::empty_view(ignore_time)
    } else {
        batch_table(ignore_time, v.drop_last()).add_row(v.last().0.0, seq![(v.last().0.1, v.last().1)])
    }
}

/// A table of signal values by time: each time has its signals, each signal
/// one (displayed) value.
pub struct WaveformTable {
    /// (time, [(signal, value)]); a time occurs once, a signal once per time.
    pub rows: Vec<(usize, Vec<(String, String)>)>,
    pub ignore_time: bool,
}

/// The mathematical value of a table.
pub ghost struct TableView {
    pub rows: Seq<(usize, Seq<(Seq<char>, Seq<char>)>)>,
    pub ignore_time: bool,
}

/// Sets the value of `sig` among `vals`: in place where it is, else at the end.
pub open spec fn set_value(vals: Seq<(Seq<char>, Seq<char>)>, sig: Seq<char>, val: Seq<char>) -> Seq<(Seq<char>, Seq<char>)> {
    if exists|i: int| 0 <= i < vals.len() && vals[i].0 == sig {
        let i = choose|i: int| 0 <= i < vals.len() && vals[i].0 == sig;
        vals.update(i, (sig, val))
    } else {
        vals.push((sig, val))
    }
}

/// Sets the values of `new` among `vals`, one after the other.
pub open spec fn set_values(vals: Seq<(Seq<char>, Seq<char>)>, new: Seq<(Seq<char>, Seq<char>)>) -> Seq<(Seq<char>, Seq<char>)>
    decreases new.len(),
{
    if new.len() == 0 {
        vals
    } else {
        let v = set_values(vals, new.drop_last());
        set_value(v, new.last().0, new.last().1)
    }
}

/// The position of `time` among the rows.
pub open spec fn row_pos(rows: Seq<(usize, Seq<(Seq<char>, Seq<char>)>)>, time: usize) -> Option<int> {
    if exists|i: int| 0 <= i < rows.len() && rows[i].0 == time {
        Some(choose|i: int| 0 <= i < rows.len() && rows[i].0 == time)
    } else {
        None
    }
}

/// Signals occur once.
pub open spec fn signals_unique(vals: Seq<(Seq<char>, Seq<char>)>) -> bool {
    forall|i: int, j: int| 0 <= i < j < vals.len() ==> vals[i].0 != vals[j].0
}

impl TableView {
    /// Times occur once, and signals once per time.
    pub open spec fn wf(self) -> bool {
        &&& forall|i: int, j: int| 0 <= i < j < self.rows.len() ==> self.rows[i].0 != self.rows[j].0
        &&& forall|i: int| 0 <= i < self.rows.len() ==> signals_unique(#[trigger] self.rows[i].1)
    }

    /// The table after adding the values of `vals` at `time`.
    pub open spec fn add_row(self, time: usize, vals: Seq<(Seq<char>, Seq<char>)>) -> TableView {
        match row_pos(self.rows, time) {
            Some(i) => TableView {
                rows: self.rows.update(i, (time, set_values(self.rows[i].1, vals))),
                ignore_time: self.ignore_time,
            },
            None => TableView {
                rows: self.rows.push((time, set_values(Seq::empty(), vals))),
                ignore_time: self.ignore_time,
            },
        }
    }

    /// The values at `time`, if the table has it.
    pub open spec fn values_at(self, time: usize) -> Option<Seq<(Seq<char>, Seq<char>)>> {
        match row_pos(self.rows, time) {
            Some(i) => Some(self.rows[i].1),
            None => None,
        }
    }
}

/// What the tables are made of at `time`: a header, then (unless the time is
/// left out) the time, then a record for each signal.
pub open spec fn records_at(t: TableView, time: usize) -> Seq<Seq<Seq<char>>> {
    let header = seq![seq!["signals"@, "values"@]];
    match t.values_at(time) {
        None => header,
        Some(vals) => {
            let with_time = if t.ignore_time {
                header
            } else {
                header.push(seq!["time"@, decimal(time as nat)])
            };
            with_time + vals.map_values(|e: (Seq<char>, Seq<char>)| seq![e.0, e.1])
        },
    }
}

/// The text of a table with these records, as `tabled` lays it out in the
/// markdown style.
pub uninterp spec fn spec_markdown_table(records: Seq<Seq<Seq<char>>>) -> Seq<char>;

/// Lays out records as a markdown table with `tabled`: a `Builder` gets each
/// record in turn, and the built table gets `Style::markdown()`. The result is
/// named by `spec_markdown_table`.
#[verifier::external_body]
fn markdown_table(records: Vec<Vec<String>>) -> (r: String)
    ensures
        r@ == spec_markdown_table(records@.map_values(|rec: Vec<String>| strings_view(rec@))),
{
    let mut builder = tabled::builder::Builder::default();
    for record in records {
        builder.push_record(record);
    }
    let mut table = builder.build();
    table.with(tabled::settings::Style::markdown());
    table.to_string()
}

/// The tables of all times, in order, separated by an empty line.
pub open spec fn table_text(t: TableView) -> Seq<char> {
    join_blank(t.rows.map_values(|r: (usize, Seq<(Seq<char>, Seq<char>)>)| spec_markdown_table(records_at(t, r.0))))
}

/// Joins texts with an empty line between them.
pub open spec fn join_blank(s: Seq<Seq<char>>) -> Seq<char>
    decreases s.len(),
{
    if s.len() == 0 {
        Seq::empty()
    } else if s.len() == 1 {
        s[0]
    } else {
        join_blank(s.drop_last()) + "\n\n"@ + s.last()
    }
}

/// The view of the values of a row.
pub open spec fn vals_view(v: Seq<(String, String)>) -> Seq<(Seq<char>, Seq<char>)> {
    pairs_view(v)
}

impl View for WaveformTable {
    type V = TableView;

    open spec fn view(&self) -> TableView {
        TableView {
            rows: self.rows@.map_values(|r: (usize, Vec<(String, String)>)| (r.0, vals_view(r.1@))),
            ignore_time: self.ignore_time,
        }
    }
}

impl WaveformTable {
    /// An empty table.
    pub open spec fn empty_view(ignore_time: bool) -> TableView {
        TableView { rows: Seq::empty(), ignore_time }
    }

    pub fn new(ignore_time: bool) -> (r: WaveformTable)
        ensures
            r@ == Self::empty_view(ignore_time),
            r@.wf(),
    {
        let r = WaveformTable { rows: Vec::new(), ignore_time };
        assert(r@.rows =~= Seq::<(usize, Seq<(Seq<char>, Seq<char>)>)>::empty());
        r
    }

    /// Sets the value of `sig` in `vals`.
    fn set_in(vals: &mut Vec<(String, String)>, sig: &String, val: &String)
        requires
            signals_unique(vals_view(old(vals)@)),
        ensures
            vals_view(final(vals)@) == set_value(vals_view(old(vals)@), sig@, val@),
            signals_unique(vals_view(final(vals)@)),
    {
        let ghost v0 = vals_view(vals@);
        let mut i: usize = 0;
        while i < vals.len()
            invariant
                v0 == vals_view(vals@),
                v0 == vals_view(old(vals)@),
                signals_unique(v0),
                i <= vals@.len(),
                forall|k: int| 0 <= k < i ==> v0[k].0 != sig@,
            decreases vals@.len() - i,
        {
            if str_eq(vals[i].0.as_str(), sig.as_str()) {
                proof {
                    assert(v0[i as int].0 == sig@);
                    let j = choose|j: int| 0 <= j < v0.len() && v0[j].0 == sig@;
                    if j != i {
                        if j < i {
                        } else {
                            assert(v0[i as int].0 != v0[j].0);
                        }
                    }
                }
                assert(set_value(v0, sig@, val@) == v0.update(i as int, (sig@, val@)));
                vals.set(i, (sig.clone(), val.clone()));
                assert(vals_view(vals@) =~= v0.update(i as int, (sig@, val@)));
                return;
            }
            i = i + 1;
        }
        vals.push((sig.clone(), val.clone()));
        assert(vals_view(vals@) =~= v0.push((sig@, val@)));
        assert(!(exists|j: int| 0 <= j < v0.len() && v0[j].0 == sig@));
    }

    /// Adds the values of `values` at `time`: a signal the time already has
    /// gets the new value.
    pub fn add_row(&mut self, time: usize, values: &Vec<(String, String)>)
        requires
            old(self)@.wf(),
        ensures
            final(self)@ == old(self)@.add_row(time, pairs_view(values@)),
            final(self)@.wf(),
    {
        let ghost t0 = self@;
        let mut pos: usize = 0;
        while pos < self.rows.len() && self.rows[pos].0 != time
            invariant
                t0 == self@,
                t0.wf(),
                pos <= self.rows@.len(),
                forall|k: int| 0 <= k < pos ==> t0.rows[k].0 != time,
            decreases self.rows@.len() - pos,
        {
            pos = pos + 1;
        }
        let found = pos < self.rows.len();
        let mut vals: Vec<(String, String)> = if found {
            proof {
                assert(t0.rows[pos as int].0 == time);
                let j = choose|j: int| 0 <= j < t0.rows.len() && t0.rows[j].0 == time;
                if j != pos {
                    if j > pos {
                        assert(t0.rows[pos as int].0 != t0.rows[j].0);
                    }
                }
                assert(row_pos(t0.rows, time) == Some(pos as int));
            }
            copy_pairs(&self.rows[pos].1)
        } else {
            assert(row_pos(t0.rows, time) is None);
            Vec::new()
        };
        let ghost start = vals_view(vals@);
        assert(found ==> start == t0.rows[pos as int].1);
        assert(!found ==> start == Seq::<(Seq<char>, Seq<char>)>::empty());
        assert(signals_unique(start)) by {
            if found {
                assert(signals_unique(t0.rows[pos as int].1));
            }
        }
        let mut i: usize = 0;
        while i < values.len()
            invariant
                t0 == self@,
                found == (pos < self.rows@.len()),
                row_pos(t0.rows, time) == (if found {
                    Some(pos as int)
                } else {
                    None
                }),
                i <= values@.len(),
                signals_unique(vals_view(vals@)),
                vals_view(vals@) == set_values(start, pairs_view(values@).take(i as int)),
            decreases values@.len() - i,
        {
            assert(pairs_view(values@).take(i + 1).drop_last() =~= pairs_view(values@).take(i as int));
            Self::set_in(&mut vals, &values[i].0, &values[i].1);
            i = i + 1;
        }
        assert(pairs_view(values@).take(values@.len() as int) =~= pairs_view(values@));
        if found {
            self.rows.set(pos, (time, vals));
        } else {
            self.rows.push((time, vals));
        }
        assert(self@.rows =~= t0.add_row(time, pairs_view(values@)).rows);
    }

    /// The records of the table at `time`.
    fn records(&self, time: usize) -> (r: Vec<Vec<String>>)
        requires
            self@.wf(),
        ensures
            r@.map_values(|rec: Vec<String>| strings_view(rec@)) == records_at(self@, time),
    {
        let mut r: Vec<Vec<String>> = Vec::new();
        let mut header: Vec<String> = Vec::new();
        header.push(string_of("signals"));
        header.push(string_of("values"));
        assert(strings_view(header@) =~= seq!["signals"@, "values"@]);
        r.push(header);
        let ghost t = self@;
        let mut pos: usize = 0;
        while pos < self.rows.len() && self.rows[pos].0 != time
            invariant
                t == self@,
                t.wf(),
                pos <= self.rows@.len(),
                forall|k: int| 0 <= k < pos ==> t.rows[k].0 != time,
            decreases self.rows@.len() - pos,
        {
            pos = pos + 1;
        }
        let ghost hdr = seq![seq!["signals"@, "values"@]];
        assert(r@.map_values(|rec: Vec<String>| strings_view(rec@)) =~= hdr);
        if pos == self.rows.len() {
            assert(row_pos(t.rows, time) is None);
            return r;
        }
        proof {
            assert(t.rows[pos as int].0 == time);
            let j = choose|j: int| 0 <= j < t.rows.len() && t.rows[j].0 == time;
            if j != pos {
                if j > pos {
                    assert(t.rows[pos as int].0 != t.rows[j].0);
                }
            }
            assert(row_pos(t.rows, time) == Some(pos as int));
        }
        if !self.ignore_time {
            let mut rec: Vec<String> = Vec::new();
            rec.push(string_of("time"));
            rec.push(decimal_string(time as u64));
            assert(strings_view(rec@) =~= seq!["time"@, decimal(time as nat)]);
            r.push(rec);
        }
        let ghost base = r@.map_values(|rec: Vec<String>| strings_view(rec@));
        let vals = &self.rows[pos].1;
        let mut i: usize = 0;
        while i < vals.len()
            invariant
                i <= vals@.len(),
                r@.map_values(|rec: Vec<String>| strings_view(rec@)) == base + vals_view(vals@).take(i as int).map_values(
                    |e: (Seq<char>, Seq<char>)| seq![e.0, e.1],
                ),
            decreases vals@.len() - i,
        {
            let mut rec: Vec<String> = Vec::new();
            rec.push(vals[i].0.clone());
            rec.push(vals[i].1.clone());
            assert(strings_view(rec@) =~= seq![vals_view(vals@)[i as int].0, vals_view(vals@)[i as int].1]);
            let ghost before = r@;
            r.push(rec);
            assert(r@.map_values(|rec: Vec<String>| strings_view(rec@)) =~= before.map_values(
                |rec: Vec<String>| strings_view(rec@),
            ).push(seq![vals_view(vals@)[i as int].0, vals_view(vals@)[i as int].1]));
            assert(vals_view(vals@).take(i + 1).map_values(|e: (Seq<char>, Seq<char>)| seq![e.0, e.1])
                =~= vals_view(vals@).take(i as int).map_values(|e: (Seq<char>, Seq<char>)| seq![e.0, e.1]).push(
                seq![vals_view(vals@)[i as int].0, vals_view(vals@)[i as int].1],
            ));
            i = i + 1;
        }
        assert(vals_view(vals@).take(vals@.len() as int) =~= vals_view(vals@));
        r
    }

    /// The table of the values at `time`, laid out in the markdown style.
    pub fn make_table_string_at_time(&self, time: usize) -> (r: String)
        requires
            self@.wf(),
        ensures
            r@ == spec_markdown_table(records_at(self@, time)),
    {
        markdown_table(self.records(time))
    }

    /// The tables of all times, in the order the times were added, separated
    /// by an empty line.
    pub fn to_string(&self) -> (r: String)
        requires
            self@.wf(),
        ensures
            r@ == table_text(self@),
    {
        let ghost texts = self@.rows.map_values(
            |r: (usize, Seq<(Seq<char>, Seq<char>)>)| spec_markdown_table(records_at(self@, r.0)),
        );
        let mut out: Vec<char> = Vec::new();
        let mut i: usize = 0;
        while i < self.rows.len()
            invariant
                i <= self.rows@.len(),
                texts.len() == self.rows@.len(),
                self@.wf(),
                texts == self@.rows.map_values(
                    |r: (usize, Seq<(Seq<char>, Seq<char>)>)| spec_markdown_table(records_at(self@, r.0)),
                ),
                out@ == join_blank(texts.take(i as int)),
            decreases self.rows@.len() - i,
        {
            let s = self.make_table_string_at_time(self.rows[i].0);
            let cs = chars_of(s.as_str());
            assert(texts.take(i + 1).drop_last() =~= texts.take(i as int));
            if i > 0 {
                out.push('\n');
                out.push('\n');
            }
            let ghost before = out@;
            let mut k: usize = 0;
            while k < cs.len()
                invariant
                    k <= cs@.len(),
                    out@ == before + cs@.take(k as int),
                decreases cs@.len() - k,
            {
                out.push(cs[k]);
                assert(cs@.take(k + 1) =~= cs@.take(k as int).push(cs@[k as int]));
                k = k + 1;
            }
            assert(cs@.take(cs@.len() as int) =~= cs@);
            proof {
                if i == 0 {
                    assert(texts.take(1) =~= seq![texts[0]]);
                } else {
                    assert(out@ =~= join_blank(texts.take(i as int)) + "\n\n"@ + texts[i as int]) by {
                        reveal_strlit("\n\n");
                    }
                }
            }
            i = i + 1;
        }
        assert(texts.take(self.rows@.len() as int) =~= texts);
        string_from_chars(&out)
    }
}

/// A copy of (signal, value) pairs.
fn copy_pairs(v: &Vec<(String, String)>) -> (r: Vec<(String, String)>)
    ensures
        pairs_view(r@) == pairs_view(v@),
{
    let mut r: Vec<(String, String)> = Vec::new();
    let mut i: usize = 0;
    while i < v.len()
        invariant
            i <= v@.len(),
            pairs_view(r@) == pairs_view(v@).take(i as int),
        decreases v@.len() - i,
    {
        let ghost before = r@;
        r.push((v[i].0.clone(), v[i].1.clone()));
        assert(pairs_view(r@) =~= pairs_view(before).push(pairs_view(v@)[i as int]));
        assert(pairs_view(v@).take(i + 1) =~= pairs_view(v@).take(i as int).push(pairs_view(v@)[i as int]));
        i = i + 1;
    }
    assert(pairs_view(v@).take(v@.len() as int) =~= pairs_view(v@));
    r
}


/// The length of the longest common prefix of `a` and `b`.
pub open spec fn common_prefix_len(a: Seq<Seq<char>>, b: Seq<Seq<char>>) -> nat
    decreases a.len(),
{
    if a.len() == 0 || b.len() == 0 || a[0] != b[0] {
        0
    } else {
        1 + common_prefix_len(a.drop_first(), b.drop_first())
    }
}

/// The view of a scope index: (reversed path, path) pairs.
pub open spec fn index_view(v: Seq<(Vec<String>, Vec<String>)>) -> Seq<(Seq<Seq<char>>, Seq<Seq<char>>)> {
    v.map_values(|e: (Vec<String>, Vec<String>)| (strings_view(e.0@), strings_view(e.1@)))
}

/// The view of a list of candidates.
pub open spec fn candidates_view(v: Seq<(usize, Vec<String>)>) -> Seq<(nat, Seq<Seq<char>>)> {
    v.map_values(|e: (usize, Vec<String>)| (e.0 as nat, strings_view(e.1@)))
}

/// The waveform scopes that share a last component with the design scope
/// `sv`, each with the number of last components they share, in index order.
pub open spec fn suffix_matches(sv: Seq<Seq<char>>, index: Seq<(Seq<Seq<char>>, Seq<Seq<char>>)>) -> Seq<(nat, Seq<Seq<char>>)>
    decreases index.len(),
{
    if index.len() == 0 {
        Seq::empty()
    } else {
        let rest = suffix_matches(sv, index.drop_last());
        let n = common_prefix_len(sv.reverse(), index.last().0);
        if n > 0 {
            rest.push((n, index.last().1))
        } else {
            rest
        }
    }
}

/// Inserts `x` after the leading elements whose count is at least its own.
pub open spec fn insert_desc(s: Seq<(nat, Seq<Seq<char>>)>, x: (nat, Seq<Seq<char>>)) -> Seq<(nat, Seq<Seq<char>>)>
    decreases s.len(),
{
    if s.len() == 0 {
        seq![x]
    } else if s[0].0 >= x.0 {
        seq![s[0]] + insert_desc(s.drop_first(), x)
    } else {
        seq![x] + s
    }
}

/// The stable sort by decreasing count: equal counts keep their order.
pub open spec fn sort_desc(s: Seq<(nat, Seq<Seq<char>>)>) -> Seq<(nat, Seq<Seq<char>>)>
    decreases s.len(),
{
    if s.len() == 0 {
        Seq::empty()
    } else {
        insert_desc(sort_desc(s.drop_last()), s.last())
    }
}

/// Counts never increase along the sequence.
pub open spec fn desc_sorted(s: Seq<(nat, Seq<Seq<char>>)>) -> bool {
    forall|i: int, j: int| 0 <= i < j < s.len() ==> s[i].0 >= s[j].0
}

/// Inserting into a sorted sequence: `x` goes before the first element with a
/// smaller count, and the result stays sorted.
proof fn lemma_insert_desc(s: Seq<(nat, Seq<Seq<char>>)>, x: (nat, Seq<Seq<char>>), p: int)
    requires
        desc_sorted(s),
        0 <= p <= s.len(),
        forall|k: int| 0 <= k < p ==> s[k].0 >= x.0,
        p < s.len() ==> s[p].0 < x.0,
    ensures
        insert_desc(s, x) == s.insert(p, x),
        desc_sorted(s.insert(p, x)),
    decreases s.len(),
{
    if s.len() == 0 {
        assert(s.insert(p, x) =~= seq![x]);
    } else if s[0].0 >= x.0 {
        assert(p > 0);
        let t = s.drop_first();
        assert forall|k: int| 0 <= k < p - 1 implies t[k].0 >= x.0 by {
            assert(t[k] == s[k + 1]);
        }
        lemma_insert_desc(t, x, p - 1);
        assert(s.insert(p, x) =~= seq![s[0]] + t.insert(p - 1, x));
    } else {
        assert(p == 0);
        assert(s.insert(p, x) =~= seq![x] + s);
    }
    let r = s.insert(p, x);
    assert forall|i: int, j: int| 0 <= i < j < r.len() implies r[i].0 >= r[j].0 by {
        if i < p && j < p {
        } else if i < p && j == p {
        } else if i < p {
            assert(r[j] == s[j - 1]);
        } else if i == p {
            if j - 1 >= p {
                assert(r[j] == s[j - 1]);
                assert(s[p].0 >= s[j - 1].0);
            }
        } else {
            assert(r[i] == s[i - 1]);
            assert(r[j] == s[j - 1]);
        }
    }
}

/// The count of shared last components between the design scope (reversed)
/// and a reversed waveform scope.
fn common_len(sv_rev: &Vec<String>, fst_rev: &Vec<String>) -> (r: usize)
    ensures
        r == common_prefix_len(strings_view(sv_rev@), strings_view(fst_rev@)),
{
    let ghost a = strings_view(sv_rev@);
    let ghost b = strings_view(fst_rev@);
    let mut n: usize = 0;
    assert(a.skip(0) =~= a);
    assert(b.skip(0) =~= b);
    while n < sv_rev.len() && n < fst_rev.len() && str_eq(sv_rev[n].as_str(), fst_rev[n].as_str())
        invariant
            a == strings_view(sv_rev@),
            b == strings_view(fst_rev@),
            n <= sv_rev@.len(),
            n <= fst_rev@.len(),
            forall|k: int| 0 <= k < n ==> a[k] == b[k],
            common_prefix_len(a, b) == n + common_prefix_len(a.skip(n as int), b.skip(n as int)),
        decreases sv_rev@.len() - n,
    {
        assert(a[n as int] == sv_rev@[n as int]@);
        assert(b[n as int] == fst_rev@[n as int]@);
        assert(a.skip(n as int)[0] == a[n as int]);
        assert(b.skip(n as int)[0] == b[n as int]);
        assert(a.skip(n as int).drop_first() =~= a.skip(n + 1));
        assert(b.skip(n as int).drop_first() =~= b.skip(n + 1));
        n = n + 1;
    }
    proof {
        if n < sv_rev@.len() && n < fst_rev@.len() {
            assert(a[n as int] == sv_rev@[n as int]@);
            assert(b[n as int] == fst_rev@[n as int]@);
            assert(a.skip(n as int)[0] == a[n as int]);
            assert(b.skip(n as int)[0] == b[n as int]);
        }
    }
    n
}

/// The waveform scopes that may hold the design scope `sv_scope`: those that
/// share at least its last component, best (most shared components) first,
/// equally good ones in index order.
pub fn map_scope_candidates(sv_scope: &Vec<String>, scope_index: &Vec<(Vec<String>, Vec<String>)>) -> (r: Vec<
    (usize, Vec<String>),
>)
    ensures
        candidates_view(r@) == sort_desc(suffix_matches(strings_view(sv_scope@), index_view(scope_index@))),
        desc_sorted(candidates_view(r@)),
{
    let ghost sv = strings_view(sv_scope@);
    let ghost iv = index_view(scope_index@);
    let mut sv_rev: Vec<String> = Vec::new();
    let mut k: usize = sv_scope.len();
    while k > 0
        invariant
            k <= sv_scope@.len(),
            sv == strings_view(sv_scope@),
            strings_view(sv_rev@) == sv.skip(k as int).reverse(),
        decreases k,
    {
        k = k - 1;
        let ghost before = sv_rev@;
        sv_rev.push(sv_scope[k].clone());
        assert(strings_view(sv_rev@) =~= strings_view(before).push(sv[k as int]));
        assert(sv.skip(k as int).reverse() =~= sv.skip(k + 1).reverse().push(sv[k as int]));
    }
    assert(sv.skip(0) =~= sv);
    let mut r: Vec<(usize, Vec<String>)> = Vec::new();
    let mut i: usize = 0;
    while i < scope_index.len()
        invariant
            i <= scope_index@.len(),
            iv == index_view(scope_index@),
            strings_view(sv_rev@) == sv.reverse(),
            candidates_view(r@) == sort_desc(suffix_matches(sv, iv.take(i as int))),
            desc_sorted(candidates_view(r@)),
        decreases scope_index@.len() - i,
    {
        assert(iv.take(i + 1).drop_last() =~= iv.take(i as int));
        assert(iv.take(i + 1).last() == iv[i as int]);
        let n = common_len(&sv_rev, &scope_index[i].0);
        if n > 0 {
            let ghost x = (n as nat, iv[i as int].1);
            let ghost c = candidates_view(r@);
            let mut p: usize = 0;
            while p < r.len() && r[p].0 >= n
                invariant
                    p <= r@.len(),
                    c == candidates_view(r@),
                    x.0 == n,
                    forall|q: int| 0 <= q < p ==> c[q].0 >= x.0,
                decreases r@.len() - p,
            {
                assert(c[p as int].0 == r@[p as int].0 as nat);
                p = p + 1;
            }
            proof {
                if p < r@.len() {
                    assert(c[p as int].0 == r@[p as int].0 as nat);
                }
                lemma_insert_desc(c, x, p as int);
            }
            let ghost before = r@;
            let fwd = copy_names(&scope_index[i].1);
            r.insert(p, (n, fwd));
            assert(candidates_view(r@) =~= c.insert(p as int, x));
            assert(suffix_matches(sv, iv.take(i + 1)) =~= suffix_matches(sv, iv.take(i as int)).push(x));
            let ghost sm = suffix_matches(sv, iv.take(i as int));
            assert(sm.push(x).drop_last() =~= sm);
        } else {
            assert(suffix_matches(sv, iv.take(i + 1)) =~= suffix_matches(sv, iv.take(i as int)));
        }
        i = i + 1;
    }
    assert(iv.take(scope_index@.len() as int) =~= iv);
    r
}

/// A copy of a list of names.
fn copy_names(v: &Vec<String>) -> (r: Vec<String>)
    ensures
        strings_view(r@) == strings_view(v@),
{
    let mut r: Vec<String> = Vec::new();
    let mut i: usize = 0;
    while i < v.len()
        invariant
            i <= v@.len(),
            strings_view(r@) == strings_view(v@).take(i as int),
        decreases v@.len() - i,
    {
        let ghost before = r@;
        r.push(v[i].clone());
        assert(strings_view(r@) =~= strings_view(before).push(strings_view(v@)[i as int]));
        assert(strings_view(v@).take(i + 1) =~= strings_view(v@).take(i as int).push(strings_view(v@)[i as int]));
        i = i + 1;
    }
    assert(strings_view(v@).take(v@.len() as int) =~= strings_view(v@));
    r
}

} // verus!
