use vstd::prelude::*;
use crate::store::{
    assoc_map, lemma_assoc_absent, lemma_assoc_dom, lemma_assoc_last, registered, uninit_err,
    SimError, Store,
};
use crate::text::{to_chars, toks, token_spans};
use crate::parser::{design_names, design_of, models_of, register_models, scan_models};

verus! {

/// A content fault met while building elements from text.
#[derive(Debug, PartialEq, Eq)]
pub enum ParseError {
    /// A truth-table row that is not `<bits> <bit>` with one bit per input.
    MalformedTableRow(String),
    /// An initial value other than the digits 0 to 3.
    InvalidInitValue(char),
    /// A clock edge other than re, fe, ah, al and as.
    InvalidClockEdge(String),
}

/// A named signal; its value lives in the store.
#[derive(Debug, PartialEq, Eq)]
pub struct Var {
    name: String,
}

impl View for Var {
    type V = Seq<char>;

    closed spec fn view(&self) -> Seq<char> {
        self.name@
    }
}

/// The names of a list of signals.
pub open spec fn names_of(v: Seq<Var>) -> Seq<Seq<char>> {
    v.map_values(|x: Var| x@)
}

/// The texts of a list of string slices.
pub open spec fn strs_of(v: Seq<&str>) -> Seq<Seq<char>> {
    v.map_values(|x: &str| x@)
}

impl Var {
    /// A signal named `name`, added to the store at 0 unless already there.
    pub fn new(name: &str, store: &mut Store) -> (r: Var)
        ensures
            r@ == name@,
            final(store)@ == registered(old(store)@, set![name@]),
    {
        store.register(name);
        Var { name: name.to_owned() }
    }

    pub(crate) fn named(name: String) -> (r: Var)
        ensures
            r@ == name@,
    {
        Var { name }
    }

    /// The signal's name.
    pub fn name(&self) -> (r: &str)
        ensures
            r@ == self@,
    {
        self.name.as_str()
    }
}

/// Signals for each of `names`, each added to the store at 0 unless there.
fn new_vars(names: &Vec<&str>, store: &mut Store) -> (r: Vec<Var>)
    ensures
        names_of(r@) == strs_of(names@),
        final(store)@ == registered(old(store)@, strs_of(names@).to_set()),
{
    let mut r: Vec<Var> = Vec::new();
    let mut i: usize = 0;
    while i < names.len()
        invariant
            i <= names@.len(),
            names_of(r@) == strs_of(names@).take(i as int),
            store@ == registered(old(store)@, strs_of(names@).take(i as int).to_set()),
        decreases names.len() - i,
    {
        let ghost r0 = r@;
        let ghost all = strs_of(names@);
        let v = Var::new(names[i], store);
        r.push(v);
        i = i + 1;
        assert(all.take(i as int) =~= all.take(i as int - 1).push(names@[i as int - 1]@));
        assert(names_of(r@) =~= names_of(r0).push(v@));
        proof {
            lemma_push_to_set(all.take(i as int - 1), names@[i as int - 1]@);
        }
        assert(store@ =~= registered(old(store)@, all.take(i as int).to_set()));
    }
    assert(strs_of(names@).take(i as int) =~= strs_of(names@));
    r
}

pub open spec fn is_bit(c: char) -> bool {
    c == '0' || c == '1'
}

pub open spec fn bit_of(c: char) -> u8 {
    if c == '1' {
        1
    } else {
        0
    }
}

/// The table entry a row of text stands for: a key of `n` bits, white
/// space, and one output bit. A don't-care `-` in the key is not accepted.
pub open spec fn row_entry(row: Seq<char>, n: nat) -> Option<(Seq<u8>, u8)> {
    let t = toks(row, true);
    if t.len() == 2 && t[0].len() == n && (forall|i: int| 0 <= i < t[0].len() ==> is_bit(t[0][i]))
        && t[1].len() == 1 && is_bit(t[1][0]) {
        Some((t[0].map_values(|c: char| bit_of(c)), bit_of(t[1][0])))
    } else {
        None
    }
}

/// The entries of a list of rows, or the first row that is malformed.
pub open spec fn table_entries(rows: Seq<Seq<char>>, n: nat) -> Result<
    Seq<(Seq<u8>, u8)>,
    Seq<char>,
>
    decreases rows.len(),
{
    if rows.len() == 0 {
        Ok(Seq::empty())
    } else {
        match table_entries(rows.drop_last(), n) {
            Err(e) => Err(e),
            Ok(es) => match row_entry(rows.last(), n) {
                Some(x) => Ok(es.push(x)),
                None => Err(rows.last()),
            },
        }
    }
}

/// Reads the row `cs[a..b]` as a table entry with a key of `n` bits.
pub(crate) fn parse_row(cs: &Vec<char>, a: usize, b: usize, n: usize) -> (r: Option<(Vec<u8>, u8)>)
    requires
        a <= b <= cs@.len(),
    ensures
        match row_entry(cs@.subrange(a as int, b as int), n as nat) {
            Some(x) => r matches Some(e) && e.0@ == x.0 && e.1 == x.1,
            None => r is None,
        },
{
    let ghost row = cs@.subrange(a as int, b as int);
    let sp = token_spans(cs, a, b, true);
    if sp.len() != 2 {
        return None;
    }
    let (k0, k1) = sp[0];
    let (v0, v1) = sp[1];
    if k1 - k0 != n || v1 - v0 != 1 || (cs[v0] != '0' && cs[v0] != '1') {
        assert(cs@.subrange(v0 as int, v1 as int)[0] == cs@[v0 as int]);
        return None;
    }
    assert(cs@.subrange(v0 as int, v1 as int)[0] == cs@[v0 as int]);
    let ghost key = toks(row, true)[0];
    let mut bits: Vec<u8> = Vec::new();
    let mut i: usize = k0;
    while i < k1
        invariant
            row == cs@.subrange(a as int, b as int),
            toks(row, true).len() == 2,
            key == toks(row, true)[0],
            a <= k0 <= i <= k1 <= b,
            b <= cs@.len(),
            key == cs@.subrange(k0 as int, k1 as int),
            forall|j: int| 0 <= j < i - k0 ==> is_bit(key[j]),
            bits@ == key.take(i - k0).map_values(|c: char| bit_of(c)),
        decreases k1 - i,
    {
        let c = cs[i];
        assert(key[i - k0] == c);
        if c != '0' && c != '1' {
            assert(!is_bit(toks(row, true)[0][i - k0]));
            return None;
        }
        bits.push(if c == '1' { 1 } else { 0 });
        i = i + 1;
        assert(bits@ =~= key.take(i - k0).map_values(|c: char| bit_of(c)));
    }
    assert(key.take(k1 - k0) =~= key);
    Some((bits, if cs[v0] == '1' { 1 } else { 0 }))
}

/// A lookup table: the output takes the value that the table gives for the
/// present values of the inputs, in order. Values live in the store.
#[derive(Debug, Eq)]
pub struct LUT {
    inputs: Vec<Var>,
    output: Var,
    mappings: Vec<(Vec<u8>, u8)>,
}

pub ghost struct LutView {
    pub inputs: Seq<Seq<char>>,
    pub output: Seq<char>,
    pub table: Map<Seq<u8>, u8>,
}

pub open spec fn row_view(e: (Vec<u8>, u8)) -> (Seq<u8>, u8) {
    (e.0@, e.1)
}

impl View for LUT {
    type V = LutView;

    closed spec fn view(&self) -> LutView {
        LutView {
            inputs: names_of(self.inputs@),
            output: self.output@,
            table: assoc_map(self.spec_rows()),
        }
    }
}

/// Whether two lists of signals carry the same names.
fn same_names(a: &Vec<Var>, b: &Vec<Var>) -> (r: bool)
    ensures
        r == (names_of(a@) == names_of(b@)),
{
    if a.len() != b.len() {
        assert(names_of(a@).len() != names_of(b@).len());
        return false;
    }
    let mut i: usize = 0;
    while i < a.len()
        invariant
            a@.len() == b@.len(),
            i <= a@.len(),
            forall|j: int| 0 <= j < i ==> a@[j]@ == b@[j]@,
        decreases a.len() - i,
    {
        if a[i].name != b[i].name {
            assert(names_of(a@)[i as int] != names_of(b@)[i as int]);
            return false;
        }
        i = i + 1;
    }
    assert(names_of(a@) =~= names_of(b@));
    true
}

/// Two lookup tables are equal when they read the same inputs, drive the
/// same output and hold the same table, however their rows were written.
impl PartialEq for LUT {
    fn eq(&self, other: &LUT) -> (r: bool) {
        if !same_names(&self.inputs, &other.inputs) || self.output.name != other.output.name {
            return false;
        }
        let there = self.table_within(other);
        let back = other.table_within(self);
        proof {
            if there && back {
                assert forall|k: Seq<u8>| #[trigger]
                    self@.table.contains_key(k) <==> other@.table.contains_key(k) by {
                    if self@.table.contains_key(k) {
                        assert(other@.table.contains_key(k));
                    }
                    if other@.table.contains_key(k) {
                        assert(self@.table.contains_key(k));
                    }
                }
                assert(self@.table =~= other@.table);
            }
        }
        there && back
    }
}

impl vstd::std_specs::cmp::PartialEqSpecImpl for LUT {
    open spec fn obeys_eq_spec() -> bool {
        true
    }

    open spec fn eq_spec(&self, other: &LUT) -> bool {
        self@ == other@
    }
}

/// Index of the first of `names` that the store lacks.
pub open spec fn first_missing(names: Seq<Seq<char>>, m: Map<Seq<char>, u8>) -> Option<int> {
    if exists|i: int| 0 <= i < names.len() && !m.contains_key(names[i]) {
        Some(
            choose|i: int|
                0 <= i < names.len() && !m.contains_key(names[i]) && forall|j: int|
                    0 <= j < i ==> m.contains_key(names[j]),
        )
    } else {
        None
    }
}

/// The values of `names` in the store, in order.
pub open spec fn values_of(names: Seq<Seq<char>>, m: Map<Seq<char>, u8>) -> Seq<u8> {
    names.map_values(|n: Seq<char>| m[n])
}

/// Writing `v` to signal `out` when the store holds it, else the fault.
pub open spec fn write_result(
    out: Seq<char>,
    v: u8,
    before: Map<Seq<char>, u8>,
    after: Map<Seq<char>, u8>,
    r: Result<(), SimError>,
) -> bool {
    if before.contains_key(out) {
        r is Ok && after == before.insert(out, v)
    } else {
        uninit_err(r, out) && after == before
    }
}

/// What evaluating a lookup table does to the store.
pub open spec fn lut_exec(
    l: LutView,
    before: Map<Seq<char>, u8>,
    after: Map<Seq<char>, u8>,
    r: Result<(), SimError>,
) -> bool {
    match first_missing(l.inputs, before) {
        Some(i) => uninit_err(r, l.inputs[i]) && after == before,
        None => {
            let key = values_of(l.inputs, before);
            if l.table.contains_key(key) {
                write_result(l.output, l.table[key], before, after, r)
            } else {
                r is Ok && after == before
            }
        },
    }
}

/// Whether two byte vectors hold the same bytes.
fn same_bytes(a: &Vec<u8>, b: &Vec<u8>) -> (r: bool)
    ensures
        r == (a@ == b@),
{
    if a.len() != b.len() {
        return false;
    }
    let mut i: usize = 0;
    while i < a.len()
        invariant
            a@.len() == b@.len(),
            i <= a@.len(),
            forall|j: int| 0 <= j < i ==> a@[j] == b@[j],
        decreases a.len() - i,
    {
        if a[i] != b[i] {
            return false;
        }
        i = i + 1;
    }
    assert(a@ =~= b@);
    true
}

impl LUT {
    pub closed spec fn spec_rows(&self) -> Seq<(Seq<u8>, u8)> {
        self.mappings@.map_values(|e: (Vec<u8>, u8)| row_view(e))
    }

    /// A table over `inputs` driving `output`, with one entry per row of
    /// `mappings`; a later row overrides an earlier one with the same key.
    /// The signals are added to the store only when every row is well formed.
    pub fn new(inputs: Vec<&str>, output: &str, mappings: Vec<&str>, store: &mut Store) -> (r:
        Result<LUT, ParseError>)
        ensures
            match table_entries(strs_of(mappings@), inputs@.len()) {
                Ok(es) => r matches Ok(l) && l@ == (LutView {
                    inputs: strs_of(inputs@),
                    output: output@,
                    table: assoc_map(es),
                }) && final(store)@ == registered(
                    old(store)@,
                    strs_of(inputs@).to_set().insert(output@),
                ),
                Err(row) => r matches Err(ParseError::MalformedTableRow(s)) && s@ == row
                    && final(store)@ == old(store)@,
            },
    {
        let n = inputs.len();
        let mut rows: Vec<(Vec<u8>, u8)> = Vec::new();
        let mut i: usize = 0;
        assert(strs_of(mappings@).take(0) =~= Seq::<Seq<char>>::empty());
        assert(rows@.map_values(|e: (Vec<u8>, u8)| row_view(e)) =~= Seq::<(Seq<u8>, u8)>::empty());
        while i < mappings.len()
            invariant
                n == inputs@.len(),
                i <= mappings@.len(),
                table_entries(strs_of(mappings@).take(i as int), n as nat) == Ok::<
                    Seq<(Seq<u8>, u8)>,
                    Seq<char>,
                >(rows@.map_values(|e: (Vec<u8>, u8)| row_view(e))),
            decreases mappings.len() - i,
        {
            let m = mappings[i];
            let cs = to_chars(m);
            let ghost pre = strs_of(mappings@).take(i as int);
            let ghost now = strs_of(mappings@).take(i as int + 1);
            assert(now.drop_last() =~= pre);
            assert(cs@.subrange(0, cs@.len() as int) =~= m@);
            match parse_row(&cs, 0, cs.len(), n) {
                Some(e) => {
                    let ghost before = rows@;
                    rows.push(e);
                    assert(rows@.map_values(|e: (Vec<u8>, u8)| row_view(e)) =~= before.map_values(
                        |e: (Vec<u8>, u8)| row_view(e),
                    ).push(row_view(e)));
                },
                None => {
                    proof {
                        lemma_entries_err(strs_of(mappings@), i as int, n as nat);
                    }
                    return Err(ParseError::MalformedTableRow(m.to_owned()));
                },
            }
            i = i + 1;
        }
        assert(strs_of(mappings@).take(i as int) =~= strs_of(mappings@));
        let ins = new_vars(&inputs, store);
        let out = Var::new(output, store);
        let l = LUT { inputs: ins, output: out, mappings: rows };
        assert(l.spec_rows() =~= rows@.map_values(|e: (Vec<u8>, u8)| row_view(e)));
        assert(registered(registered(old(store)@, strs_of(inputs@).to_set()), set![output@])
            =~= registered(old(store)@, strs_of(inputs@).to_set().insert(output@)));
        Ok(l)
    }

    /// Reads the inputs, looks their values up, and writes the output when
    /// the table holds them; otherwise the output keeps its value.
    pub fn exec(&self, store: &mut Store) -> (r: Result<(), SimError>)
        ensures
            lut_exec(self@, old(store)@, final(store)@, r),
    {
        let mut key: Vec<u8> = Vec::new();
        let mut i: usize = 0;
        let ghost names = self@.inputs;
        while i < self.inputs.len()
            invariant
                names == names_of(self.inputs@),
                store@ == old(store)@,
                i <= names.len(),
                forall|j: int| 0 <= j < i ==> store@.contains_key(names[j]),
                key@ == values_of(names.take(i as int), store@),
            decreases self.inputs.len() - i,
        {
            match store.get(self.inputs[i].name()) {
                Some(v) => {
                    key.push(v);
                },
                None => {
                    proof {
                        let f = first_missing(names, store@)->0;
                        assert(!store@.contains_key(names[i as int]));
                        if f < i {
                            assert(false);
                        }
                        if f > i {
                            assert(false);
                        }
                    }
                    return Err(SimError::UninitializedSignal(self.inputs[i].name.clone()));
                },
            }
            i = i + 1;
            assert(key@ =~= values_of(names.take(i as int), store@));
        }
        assert(names.take(i as int) =~= names);
        assert(key@ == values_of(names, store@));
        assert(first_missing(names, store@) is None);
        match self.lookup(&key) {
            Some(v) => store.set(self.output.name(), v),
            None => Ok(()),
        }
    }

    /// The output value the table gives for `key`, if it holds one.
    pub fn lookup(&self, key: &Vec<u8>) -> (r: Option<u8>)
        ensures
            r == (if self@.table.contains_key(key@) {
                Some(self@.table[key@])
            } else {
                None::<u8>
            }),
    {
        let ghost rows = self.spec_rows();
        let mut j: usize = self.mappings.len();
        while j > 0
            invariant
                j <= self.mappings@.len(),
                rows == self.spec_rows(),
                forall|t: int| j <= t < rows.len() ==> rows[t].0 != key@,
            decreases j,
        {
            j = j - 1;
            if same_bytes(&self.mappings[j].0, key) {
                proof {
                    assert(rows[j as int].0 == key@);
                    lemma_assoc_last(rows, j as int);
                }
                return Some(self.mappings[j].1);
            }
        }
        proof {
            lemma_assoc_absent(rows, key@);
        }
        None
    }

    /// Whether every key of this table's rows has the same entry in `other`.
    fn table_within(&self, other: &LUT) -> (r: bool)
        ensures
            r == (forall|k: Seq<u8>| #[trigger]
                self@.table.contains_key(k) ==> other@.table.contains_key(k)
                    && other@.table[k] == self@.table[k]),
    {
        let ghost rows = self.spec_rows();
        let mut j: usize = 0;
        while j < self.mappings.len()
            invariant
                j <= self.mappings@.len(),
                rows == self.spec_rows(),
                rows.len() == self.mappings@.len(),
                forall|t: int|
                    0 <= t < j ==> self@.table.contains_key(#[trigger] rows[t].0)
                        && other@.table.contains_key(rows[t].0) && other@.table[rows[t].0]
                        == self@.table[rows[t].0],
            decreases self.mappings.len() - j,
        {
            let k = &self.mappings[j].0;
            proof {
                lemma_assoc_dom(rows, k@);
            }
            let a = self.lookup(k);
            let b = other.lookup(k);
            assert(rows[j as int].0 == k@);
            assert(self@.table.contains_key(k@));
            if a != b {
                return false;
            }
            j = j + 1;
        }
        proof {
            assert forall|k: Seq<u8>| #[trigger]
                self@.table.contains_key(k) implies other@.table.contains_key(k)
                && other@.table[k] == self@.table[k] by {
                lemma_assoc_dom(rows, k);
                let t = choose|t: int| 0 <= t < rows.len() && rows[t].0 == k;
                assert(rows[t].0 == k);
                assert(0 <= t < j);
                assert(other@.table.contains_key(rows[t].0));
            }
        }
        true
    }

    pub(crate) fn from_parts(inputs: Vec<Var>, output: Var, mappings: Vec<(Vec<u8>, u8)>) -> (r:
        LUT)
        ensures
            r@ == (LutView {
                inputs: names_of(inputs@),
                output: output@,
                table: assoc_map(mappings@.map_values(|e: (Vec<u8>, u8)| row_view(e))),
            }),
    {
        let r = LUT { inputs, output, mappings };
        assert(r.spec_rows() =~= r.mappings@.map_values(|e: (Vec<u8>, u8)| row_view(e)));
        r
    }

    /// The input signals, in order.
    pub fn inputs(&self) -> (r: &Vec<Var>)
        ensures
            names_of(r@) == self@.inputs,
    {
        &self.inputs
    }

    /// The output signal.
    pub fn output(&self) -> (r: &Var)
        ensures
            r@ == self@.output,
    {
        &self.output
    }
}

/// Appending to a sequence adds to its set of elements.
pub proof fn lemma_push_to_set<A>(s: Seq<A>, x: A)
    ensures
        s.push(x).to_set() == s.to_set().insert(x),
{
    assert forall|k: A| s.push(x).to_set().contains(k) implies s.to_set().insert(x).contains(k) by {
        let i = choose|i: int| 0 <= i < s.push(x).len() && s.push(x)[i] == k;
        if i < s.len() {
            assert(s[i] == k);
        }
    }
    assert forall|k: A| s.to_set().insert(x).contains(k) implies s.push(x).to_set().contains(k) by {
        if k == x {
            assert(s.push(x)[s.len() as int] == k);
        } else {
            let i = choose|i: int| 0 <= i < s.len() && s[i] == k;
            assert(s.push(x)[i] == k);
        }
    }
    assert(s.push(x).to_set() =~= s.to_set().insert(x));
}

/// An error row among the first `i + 1` rows is the first error of all rows.
pub proof fn lemma_entries_err(rows: Seq<Seq<char>>, i: int, n: nat)
    requires
        0 <= i < rows.len(),
        table_entries(rows.take(i + 1), n) is Err,
    ensures
        table_entries(rows, n) == table_entries(rows.take(i + 1), n),
    decreases rows.len(),
{
    if i + 1 < rows.len() {
        assert(rows.drop_last().take(i + 1) =~= rows.take(i + 1));
        lemma_entries_err(rows.drop_last(), i, n);
    } else {
        assert(rows.take(i + 1) =~= rows);
    }
}


/// A latch: on evaluation the output takes the value of the input. The
/// clock edge and control signal are kept as configuration.
#[derive(Debug, PartialEq, Eq)]
pub struct Register {
    input: Var,
    output: Var,
    signal: String,
    control: Var,
    init: u8,
}

pub ghost struct RegView {
    pub input: Seq<char>,
    pub output: Seq<char>,
    pub signal: Seq<char>,
    pub control: Seq<char>,
    pub init: u8,
}

impl View for Register {
    type V = RegView;

    closed spec fn view(&self) -> RegView {
        RegView {
            input: self.input@,
            output: self.output@,
            signal: self.signal@,
            control: self.control@,
            init: self.init,
        }
    }
}

/// The clock edges: rising, falling, active high, active low, asynchronous.
pub open spec fn is_edge(s: Seq<char>) -> bool {
    s.len() == 2 && (s == seq!['r', 'e'] || s == seq!['f', 'e'] || s == seq!['a', 'h'] || s
        == seq!['a', 'l'] || s == seq!['a', 's'])
}

/// The initial value a digit names: 0 low, 1 high, 2 don't care, 3 unknown.
pub open spec fn init_of(c: char) -> Option<u8> {
    if '0' <= c <= '3' {
        Some((c as u32 - '0' as u32) as u8)
    } else {
        None
    }
}

/// A clock whose edge is not one of the clock edges.
pub open spec fn bad_edge(clock: Option<(&str, &str)>) -> bool {
    match clock {
        Some(c) => !is_edge(c.0@),
        None => false,
    }
}

/// An initial digit other than 0 to 3.
pub open spec fn bad_init(init: Option<char>) -> bool {
    match init {
        Some(d) => init_of(d) is None,
        None => false,
    }
}

/// The edge a latch without a clock gets.
pub open spec fn default_edge() -> Seq<char> {
    seq!['r', 'e']
}

/// The control signal a latch without a clock gets.
pub open spec fn default_control() -> Seq<char> {
    seq!['N', 'I', 'L']
}

/// The initial value of a latch without one: unknown.
pub open spec fn default_init() -> u8 {
    3
}

/// What evaluating a latch does to the store.
pub open spec fn reg_exec(
    g: RegView,
    before: Map<Seq<char>, u8>,
    after: Map<Seq<char>, u8>,
    r: Result<(), SimError>,
) -> bool {
    if !before.contains_key(g.input) {
        uninit_err(r, g.input) && after == before
    } else {
        write_result(g.output, before[g.input], before, after, r)
    }
}

/// Whether the word `cs[sp]` is a clock edge.
pub(crate) fn edge_word(cs: &Vec<char>, sp: (usize, usize)) -> (r: bool)
    requires
        sp.0 <= sp.1 <= cs@.len(),
    ensures
        r == is_edge(cs@.subrange(sp.0 as int, sp.1 as int)),
{
    let ghost w = cs@.subrange(sp.0 as int, sp.1 as int);
    if sp.1 - sp.0 != 2 {
        return false;
    }
    let a = cs[sp.0];
    let b = cs[sp.0 + 1];
    assert(w[0] == a && w[1] == b);
    let r = (a == 'r' && b == 'e') || (a == 'f' && b == 'e') || (a == 'a' && (b == 'h' || b == 'l'
        || b == 's'));
    assert(r ==> w =~= seq![a, b]);
    r
}

impl Register {
    /// A latch from `input` to `output`, with an optional clock (edge and
    /// control signal) and an optional initial digit. The edge is checked
    /// first, then the digit; the signals are added to the store only when
    /// both are valid.
    pub fn new(input: &str, output: &str, clock: Option<(&str, &str)>, init: Option<char>, store:
        &mut Store) -> (r: Result<Register, ParseError>)
        ensures
            bad_edge(clock) ==> (r matches Err(ParseError::InvalidClockEdge(e)) && e@
                == clock->Some_0.0@ && final(store)@ == old(store)@),
            !bad_edge(clock) && bad_init(init) ==> r == Err::<Register, ParseError>(
                ParseError::InvalidInitValue(init->Some_0),
            ) && final(store)@ == old(store)@,
            !bad_edge(clock) && !bad_init(init) ==> (r matches Ok(g) && g@ == (RegView {
                input: input@,
                output: output@,
                signal: match clock {
                    Some(c) => c.0@,
                    None => default_edge(),
                },
                control: match clock {
                    Some(c) => c.1@,
                    None => default_control(),
                },
                init: match init {
                    Some(d) => init_of(d)->0,
                    None => default_init(),
                },
            }) && final(store)@ == registered(old(store)@, set![input@, output@, g@.control])),
    {
        let mut signal = "re";
        let mut control = "NIL";
        proof {
            reveal_strlit("re");
            reveal_strlit("NIL");
        }
        match clock {
            Some(clk) => {
                let cs = to_chars(clk.0);
                if !edge_word(&cs, (0, cs.len())) {
                    assert(cs@.subrange(0, cs@.len() as int) =~= clk.0@);
                    return Err(ParseError::InvalidClockEdge(clk.0.to_owned()));
                }
                assert(cs@.subrange(0, cs@.len() as int) =~= clk.0@);
                signal = clk.0;
                control = clk.1;
            },
            None => {},
        }
        let mut start: u8 = 3;
        match init {
            Some(d) => {
                if d < '0' || d > '3' {
                    return Err(ParseError::InvalidInitValue(d));
                }
                start = (d as u32 - '0' as u32) as u8;
            },
            None => {},
        }
        let ghost s0 = store@;
        let i = Var::new(input, store);
        let o = Var::new(output, store);
        let c = Var::new(control, store);
        assert(store@ =~= registered(s0, set![input@, output@, control@]));
        assert(clock is None ==> signal@ == default_edge() && control@ == default_control());
        Ok(Register { input: i, output: o, signal: signal.to_owned(), control: c, init: start })
    }

    pub(crate) fn from_parts(input: Var, output: Var, signal: String, control: Var, init: u8) -> (r:
        Register)
        ensures
            r@ == (RegView {
                input: input@,
                output: output@,
                signal: signal@,
                control: control@,
                init,
            }),
    {
        Register { input, output, signal, control, init }
    }

    /// Copies the value of the input to the output, whatever the clock.
    pub fn exec(&self, store: &mut Store) -> (r: Result<(), SimError>)
        ensures
            reg_exec(self@, old(store)@, final(store)@, r),
    {
        match store.get(self.input.name()) {
            Some(v) => store.set(self.output.name(), v),
            None => Err(SimError::UninitializedSignal(self.input.name.clone())),
        }
    }

    /// The input signal.
    pub fn input(&self) -> (r: &Var)
        ensures
            r@ == self@.input,
    {
        &self.input
    }

    /// The output signal.
    pub fn output(&self) -> (r: &Var)
        ensures
            r@ == self@.output,
    {
        &self.output
    }

    /// The clock edge.
    pub fn signal(&self) -> (r: &str)
        ensures
            r@ == self@.signal,
    {
        self.signal.as_str()
    }

    /// The control signal.
    pub fn control(&self) -> (r: &Var)
        ensures
            r@ == self@.control,
    {
        &self.control
    }

    /// The initial value: 0 low, 1 high, 2 don't care, 3 unknown.
    pub fn init(&self) -> (r: u8)
        ensures
            r == self@.init,
    {
        self.init
    }
}

/// An element of a model: a lookup table or a latch.
#[derive(Debug, PartialEq, Eq)]
pub enum Element {
    LUT(LUT),
    Register(Register),
}

pub ghost enum ElemView {
    Lut(LutView),
    Reg(RegView),
}

impl View for Element {
    type V = ElemView;

    open spec fn view(&self) -> ElemView {
        match self {
            Element::LUT(l) => ElemView::Lut(l@),
            Element::Register(g) => ElemView::Reg(g@),
        }
    }
}

/// Evaluating a latch whose signals the store holds copies the input's
/// value to the output, whatever its clock edge, control signal and initial
/// value.
pub proof fn lemma_latch_copies(
    g: RegView,
    before: Map<Seq<char>, u8>,
    after: Map<Seq<char>, u8>,
    r: Result<(), SimError>,
)
    requires
        reg_exec(g, before, after, r),
        before.contains_key(g.input),
        before.contains_key(g.output),
    ensures
        r is Ok,
        after == before.insert(g.output, before[g.input]),
{
}

/// What evaluating an element does to the store.
pub open spec fn elem_exec(
    e: ElemView,
    before: Map<Seq<char>, u8>,
    after: Map<Seq<char>, u8>,
    r: Result<(), SimError>,
) -> bool {
    match e {
        ElemView::Lut(l) => lut_exec(l, before, after, r),
        ElemView::Reg(g) => reg_exec(g, before, after, r),
    }
}

/// The signals an element reads.
pub open spec fn reads(e: ElemView) -> Seq<Seq<char>> {
    match e {
        ElemView::Lut(l) => l.inputs,
        ElemView::Reg(g) => seq![g.input],
    }
}

/// Evaluating an element that reads a signal the store does not hold is an
/// uninitialized-signal fault, and the store is left as it was: no value is
/// made up for the missing signal.
pub proof fn lemma_missing_input_faults(
    e: ElemView,
    before: Map<Seq<char>, u8>,
    after: Map<Seq<char>, u8>,
    r: Result<(), SimError>,
    name: Seq<char>,
)
    requires
        elem_exec(e, before, after, r),
        reads(e).contains(name),
        !before.contains_key(name),
    ensures
        r matches Err(SimError::UninitializedSignal(_)),
        after == before,
{
    match e {
        ElemView::Lut(l) => {
            let i = choose|i: int| 0 <= i < l.inputs.len() && l.inputs[i] == name;
            assert(first_missing(l.inputs, before) is Some);
        },
        ElemView::Reg(g) => {
            assert(seq![g.input][0] == g.input);
        },
    }
}

impl Element {
    /// Evaluates the element against the store.
    pub fn exec(&self, store: &mut Store) -> (r: Result<(), SimError>)
        ensures
            elem_exec(self@, old(store)@, final(store)@, r),
    {
        match self {
            Element::LUT(l) => l.exec(store),
            Element::Register(g) => g.exec(store),
        }
    }
}

/// A circuit block: its name, ports and elements in text order.
#[derive(Debug, PartialEq, Eq)]
pub struct Model {
    name: String,
    inputs: Vec<Var>,
    outputs: Vec<Var>,
    elements: Vec<Element>,
}

pub ghost struct ModelView {
    pub name: Seq<char>,
    pub inputs: Seq<Seq<char>>,
    pub outputs: Seq<Seq<char>>,
    pub elements: Seq<ElemView>,
}

pub open spec fn elems_of(v: Seq<Element>) -> Seq<ElemView> {
    v.map_values(|e: Element| e@)
}

impl View for Model {
    type V = ModelView;

    closed spec fn view(&self) -> ModelView {
        ModelView {
            name: self.name@,
            inputs: names_of(self.inputs@),
            outputs: names_of(self.outputs@),
            elements: elems_of(self.elements@),
        }
    }
}

impl Model {
    /// A model of the given parts.
    pub fn new(name: &str, inputs: Vec<Var>, outputs: Vec<Var>, elements: Vec<Element>) -> (r:
        Model)
        ensures
            r@ == (ModelView {
                name: name@,
                inputs: names_of(inputs@),
                outputs: names_of(outputs@),
                elements: elems_of(elements@),
            }),
    {
        Model { name: name.to_owned(), inputs, outputs, elements }
    }

    pub(crate) fn from_parts(name: String, inputs: Vec<Var>, outputs: Vec<Var>, elements: Vec<
        Element,
    >) -> (r: Model)
        ensures
            r@ == (ModelView {
                name: name@,
                inputs: names_of(inputs@),
                outputs: names_of(outputs@),
                elements: elems_of(elements@),
            }),
    {
        Model { name, inputs, outputs, elements }
    }

    /// The model's name.
    pub fn name(&self) -> (r: &str)
        ensures
            r@ == self@.name,
    {
        self.name.as_str()
    }

    /// The input ports, in order.
    pub fn inputs(&self) -> (r: &Vec<Var>)
        ensures
            names_of(r@) == self@.inputs,
    {
        &self.inputs
    }

    /// The output ports, in order.
    pub fn outputs(&self) -> (r: &Vec<Var>)
        ensures
            names_of(r@) == self@.outputs,
    {
        &self.outputs
    }

    /// The elements, in text order.
    pub fn elements(&self) -> (r: &Vec<Element>)
        ensures
            elems_of(r@) == self@.elements,
    {
        &self.elements
    }
}

/// A parsed design: the models of one text, in text order.
#[derive(Debug, PartialEq, Eq)]
pub struct Config {
    models: Vec<Model>,
}

impl View for Config {
    type V = Seq<ModelView>;

    closed spec fn view(&self) -> Seq<ModelView> {
        models_of(self.models@)
    }
}

impl Config {
    /// The design a text describes; the signals of its models are added to
    /// the store. Lines that start no model are dropped; a malformed table
    /// row is a fault, and then the store is left as it was.
    pub fn new(blif: &str, store: &mut Store) -> (r: Result<Config, ParseError>)
        ensures
            match design_of(blif@) {
                Ok(vs) => r matches Ok(c) && c@ == vs && final(store)@ == registered(
                    old(store)@,
                    design_names(vs),
                ),
                Err(row) => r matches Err(ParseError::MalformedTableRow(t)) && t@ == row
                    && final(store)@ == old(store)@,
            },
    {
        match Config::parse_blif(blif, store) {
            Ok(models) => Ok(Config { models }),
            Err(e) => Err(e),
        }
    }

    /// The models a text describes, as `new` finds them.
    pub fn parse_blif(input: &str, store: &mut Store) -> (r: Result<Vec<Model>, ParseError>)
        ensures
            match design_of(input@) {
                Ok(vs) => r matches Ok(v) && models_of(v@) == vs && final(store)@ == registered(
                    old(store)@,
                    design_names(vs),
                ),
                Err(row) => r matches Err(ParseError::MalformedTableRow(t)) && t@ == row
                    && final(store)@ == old(store)@,
            },
    {
        let cs = to_chars(input);
        let ascii = input.is_ascii();
        match scan_models(input, &cs, ascii) {
            Ok(v) => {
                register_models(&v, store);
                Ok(v)
            },
            Err(e) => Err(e),
        }
    }

    /// The models, in text order.
    pub fn models(&self) -> (r: &Vec<Model>)
        ensures
            models_of(r@) == self@,
    {
        &self.models
    }
}

} // verus!
