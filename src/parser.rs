use vstd::prelude::*;
use crate::config::{
    default_control, default_edge, default_init, edge_word, elems_of, init_of, is_edge,
    lemma_entries_err, lemma_push_to_set, names_of, parse_row, row_view, table_entries, ElemView,
    Element, LutView, Model, ModelView, ParseError, RegView, Register, Var, LUT,
};
use crate::store::{registered, Store};
use crate::store::assoc_map;
use crate::text::{
    find_line_end, is_white, lemma_line_end, lemma_toks_first, line_end, sep, to_chars,
    token_spans, toks,
};

verus! {

/// The space-separated words of the line that starts at `pos`, and where
/// the next line starts. A line that starts with a space has none: a
/// directive stands in the first column.
pub open spec fn line_words(s: Seq<char>, pos: int) -> Option<(Seq<Seq<char>>, int)> {
    match line_end(s, pos) {
        Some(e) => if pos < e && s[pos] == ' ' {
            None
        } else {
            Some((toks(s.subrange(pos, e), false), e + 1))
        },
        None => None,
    }
}

pub open spec fn kw_model() -> Seq<char> {
    seq!['.', 'm', 'o', 'd', 'e', 'l']
}

pub open spec fn kw_inputs() -> Seq<char> {
    seq!['.', 'i', 'n', 'p', 'u', 't', 's']
}

pub open spec fn kw_outputs() -> Seq<char> {
    seq!['.', 'o', 'u', 't', 'p', 'u', 't', 's']
}

pub open spec fn kw_names() -> Seq<char> {
    seq!['.', 'n', 'a', 'm', 'e', 's']
}

pub open spec fn kw_latch() -> Seq<char> {
    seq!['.', 'l', 'a', 't', 'c', 'h']
}

/// A `.model <name>` line at `pos`: the name and the next line's start.
pub open spec fn model_header(s: Seq<char>, pos: int) -> Option<(Seq<char>, int)> {
    match line_words(s, pos) {
        Some((w, next)) => if w.len() == 2 && w[0] == kw_model() {
            Some((w[1], next))
        } else {
            None
        },
        None => None,
    }
}

/// A line at `pos` that starts with the word `kw`: the words after it.
pub open spec fn port_line(s: Seq<char>, pos: int, kw: Seq<char>) -> Option<
    (Seq<Seq<char>>, int),
> {
    match line_words(s, pos) {
        Some((w, next)) => if w.len() >= 1 && w[0] == kw {
            Some((w.skip(1), next))
        } else {
            None
        },
        None => None,
    }
}

/// A truth-table row: some words, made of `0`, `1`, `-` and white space only.
pub open spec fn is_row_line(line: Seq<char>) -> bool {
    toks(line, true).len() > 0 && forall|i: int|
        0 <= i < line.len() ==> (is_white(line[i]) || line[i] == '0' || line[i] == '1' || line[i]
            == '-')
}

/// The row lines that follow each other from `pos`, and where they end.
pub open spec fn table_rows(s: Seq<char>, pos: int) -> (Seq<Seq<char>>, int)
    decreases s.len() - pos,
    via table_rows_decreases
{
    match line_end(s, pos) {
        Some(e) => if is_row_line(s.subrange(pos, e)) {
            let (rs, end) = table_rows(s, e + 1);
            (seq![s.subrange(pos, e)] + rs, end)
        } else {
            (Seq::empty(), pos)
        },
        None => (Seq::empty(), pos),
    }
}

#[via_fn]
proof fn table_rows_decreases(s: Seq<char>, pos: int) {
    lemma_line_end(s, pos);
}

pub proof fn lemma_table_rows_end(s: Seq<char>, pos: int)
    ensures
        table_rows(s, pos).1 >= pos,
    decreases s.len() - pos,
{
    lemma_line_end(s, pos);
    match line_end(s, pos) {
        Some(e) => if is_row_line(s.subrange(pos, e)) {
            lemma_table_rows_end(s, e + 1);
        },
        None => {},
    }
}

/// An element as it stands in the text: a table's names and rows, or a latch.
pub ghost enum ElemText {
    Lut(Seq<Seq<char>>, Seq<Seq<char>>),
    Latch(RegView),
}

/// The latch that the words of a `.latch` line describe:
/// `.latch <in> <out> [<edge> <control>] [<init>]`.
pub open spec fn latch_view(w: Seq<Seq<char>>) -> Option<RegView> {
    if w.len() < 3 || w[0] != kw_latch() {
        None
    } else if w.len() == 3 {
        Some(
            RegView {
                input: w[1],
                output: w[2],
                signal: default_edge(),
                control: default_control(),
                init: default_init(),
            },
        )
    } else if w.len() == 4 && w[3].len() == 1 && init_of(w[3][0]) is Some {
        Some(
            RegView {
                input: w[1],
                output: w[2],
                signal: default_edge(),
                control: default_control(),
                init: init_of(w[3][0])->0,
            },
        )
    } else if w.len() == 5 && is_edge(w[3]) {
        Some(
            RegView {
                input: w[1],
                output: w[2],
                signal: w[3],
                control: w[4],
                init: default_init(),
            },
        )
    } else if w.len() == 6 && is_edge(w[3]) && w[5].len() == 1 && init_of(w[5][0]) is Some {
        Some(
            RegView {
                input: w[1],
                output: w[2],
                signal: w[3],
                control: w[4],
                init: init_of(w[5][0])->0,
            },
        )
    } else {
        None
    }
}

/// A `.names` line at `pos` with the row lines after it: the names, the
/// rows, and where the rows end.
pub open spec fn lut_text(s: Seq<char>, pos: int) -> Option<
    (Seq<Seq<char>>, Seq<Seq<char>>, int),
> {
    match line_words(s, pos) {
        Some((w, next)) => if w.len() >= 2 && w[0] == kw_names() {
            Some((w.skip(1), table_rows(s, next).0, table_rows(s, next).1))
        } else {
            None
        },
        None => None,
    }
}

/// A `.latch` line at `pos`: the latch and the next line's start.
pub open spec fn latch_text(s: Seq<char>, pos: int) -> Option<(RegView, int)> {
    match line_words(s, pos) {
        Some((w, next)) => match latch_view(w) {
            Some(g) => Some((g, next)),
            None => None,
        },
        None => None,
    }
}

/// The element at `pos`: a lookup table or a latch.
pub open spec fn elem_text(s: Seq<char>, pos: int) -> Option<(ElemText, int)> {
    match lut_text(s, pos) {
        Some((names, rows, end)) => Some((ElemText::Lut(names, rows), end)),
        None => match latch_text(s, pos) {
            Some((g, next)) => Some((ElemText::Latch(g), next)),
            None => None,
        },
    }
}

pub proof fn lemma_elem_text_end(s: Seq<char>, pos: int)
    ensures
        elem_text(s, pos) matches Some((x, p)) ==> p > pos,
{
    lemma_line_end(s, pos);
    if line_words(s, pos) is Some {
        let next = (line_words(s, pos)->0).1;
        lemma_table_rows_end(s, next);
    }
}

/// The elements that follow each other from `pos`, and where they end.
pub open spec fn elems_text(s: Seq<char>, pos: int) -> (Seq<ElemText>, int)
    decreases s.len() - pos,
    via elems_text_decreases
{
    if pos < 0 || pos > s.len() {
        (Seq::empty(), pos)
    } else {
        match elem_text(s, pos) {
            Some((x, p)) => {
                let (xs, end) = elems_text(s, p);
                (seq![x] + xs, end)
            },
            None => (Seq::empty(), pos),
        }
    }
}

#[via_fn]
proof fn elems_text_decreases(s: Seq<char>, pos: int) {
    lemma_elem_text_end(s, pos);
    if 0 <= pos <= s.len() && elem_text(s, pos) is Some {
        let (x, p) = elem_text(s, pos)->0;
        assert(p <= s.len()) by {
            lemma_elem_text_bound(s, pos);
        }
    }
}

pub proof fn lemma_table_rows_bound(s: Seq<char>, pos: int)
    requires
        0 <= pos <= s.len(),
    ensures
        table_rows(s, pos).1 <= s.len(),
    decreases s.len() - pos,
{
    lemma_line_end(s, pos);
    match line_end(s, pos) {
        Some(e) => if is_row_line(s.subrange(pos, e)) {
            lemma_table_rows_bound(s, e + 1);
        },
        None => {},
    }
}

pub proof fn lemma_elem_text_bound(s: Seq<char>, pos: int)
    requires
        0 <= pos <= s.len(),
    ensures
        elem_text(s, pos) matches Some((x, p)) ==> p <= s.len(),
{
    lemma_line_end(s, pos);
    if line_words(s, pos) is Some {
        let next = (line_words(s, pos)->0).1;
        lemma_table_rows_bound(s, next);
    }
}

/// A model as it stands in the text.
pub ghost struct ModelText {
    pub name: Seq<char>,
    pub inputs: Seq<Seq<char>>,
    pub outputs: Seq<Seq<char>>,
    pub elems: Seq<ElemText>,
}

/// The model at `pos`: a `.model` line, an `.inputs` line, an `.outputs`
/// line, then its elements.
pub open spec fn model_text(s: Seq<char>, pos: int) -> Option<(ModelText, int)> {
    match model_header(s, pos) {
        Some((name, at_inputs)) => match port_line(s, at_inputs, kw_inputs()) {
            Some((ins, at_outputs)) => match port_line(s, at_outputs, kw_outputs()) {
                Some((outs, at_elems)) => {
                    let (xs, end) = elems_text(s, at_elems);
                    Some((ModelText { name, inputs: ins, outputs: outs, elems: xs }, end))
                },
                None => None,
            },
            None => None,
        },
        None => None,
    }
}

/// The models of the text from `pos`: where no model starts, the line is
/// dropped.
pub open spec fn models_text(s: Seq<char>, pos: int) -> Seq<ModelText>
    decreases s.len() - pos,
    via models_text_decreases
{
    if pos < 0 || pos >= s.len() {
        Seq::empty()
    } else {
        match model_text(s, pos) {
            Some((m, p)) => seq![m] + models_text(s, p),
            None => match line_end(s, pos) {
                Some(e) => models_text(s, e + 1),
                None => Seq::empty(),
            },
        }
    }
}

pub proof fn lemma_elems_text_end(s: Seq<char>, pos: int)
    requires
        0 <= pos <= s.len(),
    ensures
        pos <= elems_text(s, pos).1 <= s.len(),
    decreases s.len() - pos,
{
    lemma_elem_text_end(s, pos);
    lemma_elem_text_bound(s, pos);
    if let Some((x, p)) = elem_text(s, pos) {
        lemma_elems_text_end(s, p);
    }
}

#[via_fn]
proof fn models_text_decreases(s: Seq<char>, pos: int) {
    lemma_line_end(s, pos);
    if 0 <= pos < s.len() {
        lemma_model_text_end(s, pos);
    }
}

/// A model ends after the line it starts on, and within the text.
pub proof fn lemma_model_text_end(s: Seq<char>, pos: int)
    requires
        0 <= pos <= s.len(),
    ensures
        model_text(s, pos) matches Some((m, p)) ==> pos < p <= s.len(),
{
    lemma_line_end(s, pos);
    if 0 <= pos <= s.len() {
        if let Some((m, p)) = model_text(s, pos) {
            let (name, at_inputs) = model_header(s, pos)->0;
            lemma_line_end(s, pos);
            let (ins, at_outputs) = port_line(s, at_inputs, kw_inputs())->0;
            lemma_line_end(s, at_inputs);
            let (outs, at_elems) = port_line(s, at_outputs, kw_outputs())->0;
            lemma_line_end(s, at_outputs);
            lemma_elems_text_end(s, at_elems);
        }
    }
}

/// A comment line (one that starts with `#`) or an empty line never starts
/// a model: it is dropped, and the models of the text are those of what
/// follows it.
pub proof fn lemma_comment_or_blank_dropped(s: Seq<char>, pos: int, e: int)
    requires
        0 <= pos < s.len(),
        line_end(s, pos) == Some(e),
        e == pos || s[pos] == '#',
    ensures
        model_text(s, pos) is None,
        models_text(s, pos) == models_text(s, e + 1),
{
    lemma_line_end(s, pos);
    let line = s.subrange(pos, e);
    if e == pos {
        assert(line.len() == 0);
        assert(toks(line, false).len() == 0);
    } else {
        assert(line[0] == '#');
        lemma_toks_first(line, false);
        assert(toks(line, false)[0][0] != kw_model()[0]);
    }
}

/// The element a text element stands for, or the first malformed row.
pub open spec fn elem_value(x: ElemText) -> Result<ElemView, Seq<char>> {
    match x {
        ElemText::Lut(names, rows) => match table_entries(rows, (names.len() - 1) as nat) {
            Ok(es) => Ok(
                ElemView::Lut(
                    LutView {
                        inputs: names.drop_last(),
                        output: names.last(),
                        table: assoc_map(es),
                    },
                ),
            ),
            Err(r) => Err(r),
        },
        ElemText::Latch(g) => Ok(ElemView::Reg(g)),
    }
}

pub open spec fn elems_value(xs: Seq<ElemText>) -> Result<Seq<ElemView>, Seq<char>>
    decreases xs.len(),
{
    if xs.len() == 0 {
        Ok(Seq::empty())
    } else {
        match elems_value(xs.drop_last()) {
            Err(r) => Err(r),
            Ok(vs) => match elem_value(xs.last()) {
                Ok(v) => Ok(vs.push(v)),
                Err(r) => Err(r),
            },
        }
    }
}

pub open spec fn model_value(m: ModelText) -> Result<ModelView, Seq<char>> {
    match elems_value(m.elems) {
        Ok(es) => Ok(
            ModelView { name: m.name, inputs: m.inputs, outputs: m.outputs, elements: es },
        ),
        Err(r) => Err(r),
    }
}

pub open spec fn models_value(ms: Seq<ModelText>) -> Result<Seq<ModelView>, Seq<char>>
    decreases ms.len(),
{
    if ms.len() == 0 {
        Ok(Seq::empty())
    } else {
        match models_value(ms.drop_last()) {
            Err(r) => Err(r),
            Ok(vs) => match model_value(ms.last()) {
                Ok(v) => Ok(vs.push(v)),
                Err(r) => Err(r),
            },
        }
    }
}

/// The models a whole text describes, or the first malformed table row.
pub open spec fn design_of(s: Seq<char>) -> Result<Seq<ModelView>, Seq<char>> {
    models_value(models_text(s, 0))
}

} // verus!

verus! {

/// `sp` holds the bounds in `s` of each of the words `w`.
pub open spec fn spans_are(s: Seq<char>, sp: Seq<(usize, usize)>, w: Seq<Seq<char>>) -> bool {
    &&& sp.len() == w.len()
    &&& forall|t: int|
        #![trigger sp[t]]
        0 <= t < sp.len() ==> sp[t].0 <= sp[t].1 <= s.len() && s.subrange(
            sp[t].0 as int,
            sp[t].1 as int,
        ) == w[t]
}

pub open spec fn strings_of(v: Seq<String>) -> Seq<Seq<char>> {
    v.map_values(|x: String| x@)
}

/// The words of the line at `pos` and the next line's start.
fn words_at(cs: &Vec<char>, pos: usize) -> (r: Option<(Vec<(usize, usize)>, usize)>)
    requires
        pos <= cs@.len(),
    ensures
        match line_words(cs@, pos as int) {
            Some((w, next)) => r matches Some((sp, nx)) && nx == next && nx <= cs@.len()
                && spans_are(cs@, sp@, w),
            None => r is None,
        },
{
    let n = cs.len();
    match find_line_end(cs, pos) {
        Some(e) => {
            if pos < e && cs[pos] == ' ' {
                return None;
            }
            let sp = token_spans(cs, pos, e, false);
            assert(spans_are(cs@, sp@, toks(cs@.subrange(pos as int, e as int), false)));
            Some((sp, e + 1))
        },
        None => None,
    }
}

/// Whether `cs[sp]` spells `k`.
fn span_is(cs: &Vec<char>, sp: (usize, usize), k: &Vec<char>) -> (r: bool)
    requires
        sp.0 <= sp.1 <= cs@.len(),
    ensures
        r == (cs@.subrange(sp.0 as int, sp.1 as int) == k@),
{
    let ghost w = cs@.subrange(sp.0 as int, sp.1 as int);
    if sp.1 - sp.0 != k.len() {
        return false;
    }
    let mut i: usize = 0;
    while i < k.len()
        invariant
            w == cs@.subrange(sp.0 as int, sp.1 as int),
            sp.0 <= sp.1 <= cs@.len(),
            sp.1 - sp.0 == k@.len(),
            i <= k@.len(),
            forall|j: int| 0 <= j < i ==> w[j] == k@[j],
        decreases k.len() - i,
    {
        if cs[sp.0 + i] != k[i] {
            assert(w[i as int] != k@[i as int]);
            return false;
        }
        i = i + 1;
    }
    assert(w =~= k@);
    true
}

/// The text of `cs[sp]` as a string.
fn span_string(text: &str, cs: &Vec<char>, ascii: bool, sp: (usize, usize)) -> (r: String)
    requires
        cs@ == text@,
        ascii ==> text.is_ascii(),
        sp.0 <= sp.1 <= cs@.len(),
    ensures
        r@ == cs@.subrange(sp.0 as int, sp.1 as int),
{
    if ascii {
        text.substring_ascii(sp.0, sp.1).to_owned()
    } else {
        text.substring_char(sp.0, sp.1).to_owned()
    }
}

/// The texts of the spans from index `from` on.
fn span_strings(
    text: &str,
    cs: &Vec<char>,
    ascii: bool,
    sp: &Vec<(usize, usize)>,
    from: usize,
) -> (r: Vec<String>)
    requires
        cs@ == text@,
        ascii ==> text.is_ascii(),
        from <= sp@.len(),
        forall|t: int| #![trigger sp@[t]] 0 <= t < sp@.len() ==> sp@[t].0 <= sp@[t].1 <= cs@.len(),
    ensures
        r@.len() == sp@.len() - from,
        forall|t: int|
            #![trigger r@[t]]
            0 <= t < r@.len() ==> r@[t]@ == cs@.subrange(
                sp@[t + from].0 as int,
                sp@[t + from].1 as int,
            ),
{
    let mut r: Vec<String> = Vec::new();
    let mut i: usize = from;
    while i < sp.len()
        invariant
            cs@ == text@,
            ascii ==> text.is_ascii(),
            from <= i <= sp@.len(),
            forall|t: int|
                #![trigger sp@[t]]
                0 <= t < sp@.len() ==> sp@[t].0 <= sp@[t].1 <= cs@.len(),
            r@.len() == i - from,
            forall|t: int|
                #![trigger r@[t]]
                0 <= t < r@.len() ==> r@[t]@ == cs@.subrange(
                    sp@[t + from].0 as int,
                    sp@[t + from].1 as int,
                ),
        decreases sp.len() - i,
    {
        let w = span_string(text, cs, ascii, sp[i]);
        r.push(w);
        i = i + 1;
    }
    r
}

/// Signals named by each of `v`, added to no store.
fn vars_named(v: Vec<String>) -> (r: Vec<Var>)
    ensures
        names_of(r@) == strings_of(v@),
{
    let mut r: Vec<Var> = Vec::new();
    let mut i: usize = 0;
    while i < v.len()
        invariant
            i <= v@.len(),
            names_of(r@) == strings_of(v@).take(i as int),
        decreases v.len() - i,
    {
        let x = Var::named(v[i].clone());
        let ghost r0 = r@;
        r.push(x);
        i = i + 1;
        assert(names_of(r@) =~= names_of(r0).push(x@));
        assert(strings_of(v@).take(i as int) =~= strings_of(v@).take(i as int - 1).push(
            v@[i - 1]@,
        ));
    }
    assert(strings_of(v@).take(i as int) =~= strings_of(v@));
    r
}

/// The `.model` line at `pos`: the name and the next line's start.
fn scan_header(text: &str, cs: &Vec<char>, ascii: bool, pos: usize) -> (r: Option<(String, usize)>)
    requires
        cs@ == text@,
        ascii ==> text.is_ascii(),
        pos <= cs@.len(),
    ensures
        match model_header(cs@, pos as int) {
            Some((name, next)) => r matches Some((n, nx)) && n@ == name && nx == next && nx
                <= cs@.len(),
            None => r is None,
        },
{
    let kw = vec!['.', 'm', 'o', 'd', 'e', 'l'];
    assert(kw@ =~= kw_model());
    match words_at(cs, pos) {
        Some((sp, next)) => {
            if sp.len() == 2 && span_is(cs, sp[0], &kw) {
                Some((span_string(text, cs, ascii, sp[1]), next))
            } else {
                None
            }
        },
        None => None,
    }
}

/// A line at `pos` that starts with the word `kw`: the words after it.
fn scan_ports(text: &str, cs: &Vec<char>, ascii: bool, pos: usize, kw: &Vec<char>) -> (r: Option<
    (Vec<String>, usize),
>)
    requires
        cs@ == text@,
        ascii ==> text.is_ascii(),
        pos <= cs@.len(),
    ensures
        match port_line(cs@, pos as int, kw@) {
            Some((names, next)) => r matches Some((v, nx)) && strings_of(v@) == names && nx
                == next && nx <= cs@.len(),
            None => r is None,
        },
{
    match words_at(cs, pos) {
        Some((sp, next)) => {
            if sp.len() >= 1 && span_is(cs, sp[0], kw) {
                let v = span_strings(text, cs, ascii, &sp, 1);
                let ghost w = (line_words(cs@, pos as int)->0).0;
                assert(strings_of(v@) =~= w.skip(1));
                Some((v, next))
            } else {
                None
            }
        },
        None => None,
    }
}

/// Whether `cs[a..b]` is a row line.
fn check_row_line(cs: &Vec<char>, a: usize, b: usize) -> (r: bool)
    requires
        a <= b <= cs@.len(),
    ensures
        r == is_row_line(cs@.subrange(a as int, b as int)),
{
    let ghost line = cs@.subrange(a as int, b as int);
    let sp = token_spans(cs, a, b, true);
    if sp.len() == 0 {
        return false;
    }
    let mut i: usize = a;
    while i < b
        invariant
            line == cs@.subrange(a as int, b as int),
            a <= i <= b <= cs@.len(),
            forall|j: int|
                0 <= j < i - a ==> (is_white(line[j]) || line[j] == '0' || line[j] == '1' || line[j]
                    == '-'),
        decreases b - i,
    {
        let c = cs[i];
        assert(line[i - a] == c);
        if !sep(c, true) && c != '0' && c != '1' && c != '-' {
            return false;
        }
        i = i + 1;
    }
    true
}

/// The row lines from `pos`, as bounds in `cs`, and where they end.
fn scan_rows(cs: &Vec<char>, pos: usize) -> (r: (Vec<(usize, usize)>, usize))
    requires
        pos <= cs@.len(),
    ensures
        spans_are(cs@, r.0@, table_rows(cs@, pos as int).0),
        r.1 == table_rows(cs@, pos as int).1,
        pos <= r.1 <= cs@.len(),
{
    let mut rows: Vec<(usize, usize)> = Vec::new();
    let mut p: usize = pos;
    let n = cs.len();
    let ghost done: Seq<Seq<char>> = Seq::empty();
    loop
        invariant
            n == cs@.len(),
            pos <= p <= cs@.len(),
            table_rows(cs@, pos as int).0 == done + table_rows(cs@, p as int).0,
            table_rows(cs@, pos as int).1 == table_rows(cs@, p as int).1,
            spans_are(cs@, rows@, done),
        decreases cs@.len() - p,
    {
        match find_line_end(cs, p) {
            Some(e) => {
                if check_row_line(cs, p, e) {
                    let ghost line = cs@.subrange(p as int, e as int);
                    let ghost rest = table_rows(cs@, e + 1);
                    assert(table_rows(cs@, p as int).0 == seq![line] + rest.0);
                    assert(done + table_rows(cs@, p as int).0 =~= done.push(line) + rest.0);
                    rows.push((p, e));
                    proof {
                        done = done.push(line);
                    }
                    p = e + 1;
                } else {
                    assert(done + table_rows(cs@, p as int).0 =~= done);
                    return (rows, p);
                }
            },
            None => {
                assert(done + table_rows(cs@, p as int).0 =~= done);
                return (rows, p);
            },
        }
    }
}

/// Whether the word `cs[sp]` is one digit 0 to 3; its value if so.
fn init_digit(cs: &Vec<char>, sp: (usize, usize)) -> (r: Option<u8>)
    requires
        sp.0 <= sp.1 <= cs@.len(),
    ensures
        ({
            let w = cs@.subrange(sp.0 as int, sp.1 as int);
            if w.len() == 1 && init_of(w[0]) is Some {
                r == init_of(w[0])
            } else {
                r is None
            }
        }),
{
    if sp.1 - sp.0 != 1 {
        return None;
    }
    let c = cs[sp.0];
    assert(cs@.subrange(sp.0 as int, sp.1 as int)[0] == c);
    if c >= '0' && c <= '3' {
        Some((c as u32 - '0' as u32) as u8)
    } else {
        None
    }
}

/// The `.latch` line at `pos`: the latch and the next line's start.
fn scan_latch(text: &str, cs: &Vec<char>, ascii: bool, pos: usize) -> (r: Option<(Register, usize)>)
    requires
        cs@ == text@,
        ascii ==> text.is_ascii(),
        pos <= cs@.len(),
    ensures
        match latch_text(cs@, pos as int) {
            Some((g, next)) => r matches Some((x, nx)) && x@ == g && nx == next && nx <= cs@.len(),
            None => r is None,
        },
{
    let kw = vec!['.', 'l', 'a', 't', 'c', 'h'];
    assert(kw@ =~= kw_latch());
    let (sp, next) = match words_at(cs, pos) {
        Some(x) => x,
        None => return None,
    };
    let n = sp.len();
    if n < 3 || !span_is(cs, sp[0], &kw) {
        return None;
    }
    let signal = "re";
    let control = "NIL";
    proof {
        reveal_strlit("re");
        reveal_strlit("NIL");
    }
    let mut sig = signal.to_owned();
    let mut ctl = control.to_owned();
    assert(sig@ == default_edge() && ctl@ == default_control());
    let mut init: u8 = 3;
    if n == 4 {
        match init_digit(cs, sp[3]) {
            Some(d) => {
                init = d;
            },
            None => return None,
        }
    } else if n == 5 || n == 6 {
        if !edge_word(cs, sp[3]) {
            return None;
        }
        sig = span_string(text, cs, ascii, sp[3]);
        ctl = span_string(text, cs, ascii, sp[4]);
        if n == 6 {
            match init_digit(cs, sp[5]) {
                Some(d) => {
                    init = d;
                },
                None => return None,
            }
        }
    } else if n != 3 {
        return None;
    }
    let i = Var::named(span_string(text, cs, ascii, sp[1]));
    let o = Var::named(span_string(text, cs, ascii, sp[2]));
    let c = Var::named(ctl);
    Some((Register::from_parts(i, o, sig, c, init), next))
}

/// The `.names` line at `pos` with its rows: the table and where it ends,
/// or the first malformed row.
fn scan_lut(text: &str, cs: &Vec<char>, ascii: bool, pos: usize) -> (r: Result<
    Option<(LUT, usize)>,
    ParseError,
>)
    requires
        cs@ == text@,
        ascii ==> text.is_ascii(),
        pos <= cs@.len(),
    ensures
        match lut_text(cs@, pos as int) {
            None => r matches Ok(None),
            Some((names, rows, end)) => match elem_value(ElemText::Lut(names, rows)) {
                Ok(v) => r matches Ok(Some((l, q))) && ElemView::Lut(l@) == v && q == end && q
                    <= cs@.len(),
                Err(row) => r matches Err(ParseError::MalformedTableRow(t)) && t@ == row,
            },
        },
{
    let kw = vec!['.', 'n', 'a', 'm', 'e', 's'];
    assert(kw@ =~= kw_names());
    let (sp, next) = match words_at(cs, pos) {
        Some(x) => x,
        None => return Ok(None),
    };
    if sp.len() < 2 || !span_is(cs, sp[0], &kw) {
        return Ok(None);
    }
    let ghost w = (line_words(cs@, pos as int)->0).0;
    let mut names = span_strings(text, cs, ascii, &sp, 1);
    assert(strings_of(names@) =~= w.skip(1));
    let (rows, end) = scan_rows(cs, next);
    let ghost rv = table_rows(cs@, next as int).0;
    let n = names.len() - 1;
    let mut entries: Vec<(Vec<u8>, u8)> = Vec::new();
    let mut i: usize = 0;
    assert(rv.take(0) =~= Seq::<Seq<char>>::empty());
    assert(entries@.map_values(|e: (Vec<u8>, u8)| row_view(e)) =~= Seq::<(Seq<u8>, u8)>::empty());
    while i < rows.len()
        invariant
            cs@ == text@,
            ascii ==> text.is_ascii(),
            spans_are(cs@, rows@, rv),
            i <= rows@.len(),
            n == w.len() - 2,
            line_words(cs@, pos as int) == Some((w, next as int)),
            w.len() >= 2 && w[0] == kw_names(),
            rv == table_rows(cs@, next as int).0,
            table_entries(rv.take(i as int), n as nat) == Ok::<Seq<(Seq<u8>, u8)>, Seq<char>>(
                entries@.map_values(|e: (Vec<u8>, u8)| row_view(e)),
            ),
        decreases rows.len() - i,
    {
        let ghost pre = rv.take(i as int);
        let ghost now = rv.take(i as int + 1);
        assert(now.drop_last() =~= pre);
        assert(now.last() == rv[i as int]);
        match parse_row(cs, rows[i].0, rows[i].1, n) {
            Some(e) => {
                let ghost before = entries@;
                entries.push(e);
                assert(entries@.map_values(|e: (Vec<u8>, u8)| row_view(e)) =~= before.map_values(
                    |e: (Vec<u8>, u8)| row_view(e),
                ).push(row_view(e)));
            },
            None => {
                proof {
                    assert(cs@.subrange(rows@[i as int].0 as int, rows@[i as int].1 as int)
                        == rv[i as int]);
                    assert(table_entries(now, n as nat) == Err::<Seq<(Seq<u8>, u8)>, Seq<char>>(
                        rv[i as int],
                    ));
                    lemma_entries_err(rv, i as int, n as nat);
                    assert(w.skip(1).len() - 1 == n);
                }
                return Err(ParseError::MalformedTableRow(span_string(text, cs, ascii, rows[i])));
            },
        }
        i = i + 1;
    }
    assert(rv.take(i as int) =~= rv);
    let ghost all = strings_of(names@);
    let out = match names.pop() {
        Some(o) => o,
        None => return Ok(None),
    };
    assert(strings_of(names@) =~= all.drop_last());
    let ins = vars_named(names);
    let l = LUT::from_parts(ins, Var::named(out), entries);
    Ok(Some((l, end)))
}

/// The element at `pos` and where it ends, or the first malformed row.
fn scan_elem(text: &str, cs: &Vec<char>, ascii: bool, pos: usize) -> (r: Result<
    Option<(Element, usize)>,
    ParseError,
>)
    requires
        cs@ == text@,
        ascii ==> text.is_ascii(),
        pos <= cs@.len(),
    ensures
        match elem_text(cs@, pos as int) {
            None => r matches Ok(None),
            Some((x, end)) => match elem_value(x) {
                Ok(v) => r matches Ok(Some((e, q))) && e@ == v && q == end && q <= cs@.len(),
                Err(row) => r matches Err(ParseError::MalformedTableRow(t)) && t@ == row,
            },
        },
{
    match scan_lut(text, cs, ascii, pos) {
        Err(e) => Err(e),
        Ok(Some((l, q))) => Ok(Some((Element::LUT(l), q))),
        Ok(None) => match scan_latch(text, cs, ascii, pos) {
            Some((g, q)) => Ok(Some((Element::Register(g), q))),
            None => Ok(None),
        },
    }
}

/// A malformed row among the first elements is the first of all.
pub proof fn lemma_elems_value_err(a: Seq<ElemText>, b: Seq<ElemText>)
    requires
        elems_value(a) is Err,
    ensures
        elems_value(a + b) == elems_value(a),
    decreases b.len(),
{
    if b.len() == 0 {
        assert(a + b =~= a);
    } else {
        lemma_elems_value_err(a, b.drop_last());
        assert((a + b).drop_last() =~= a + b.drop_last());
    }
}

/// A malformed row among the first models is the first of all.
pub proof fn lemma_models_value_err(a: Seq<ModelText>, b: Seq<ModelText>)
    requires
        models_value(a) is Err,
    ensures
        models_value(a + b) == models_value(a),
    decreases b.len(),
{
    if b.len() == 0 {
        assert(a + b =~= a);
    } else {
        lemma_models_value_err(a, b.drop_last());
        assert((a + b).drop_last() =~= a + b.drop_last());
    }
}

/// The elements from `pos` and where they end, or the first malformed row.
fn scan_elems(text: &str, cs: &Vec<char>, ascii: bool, pos: usize) -> (r: Result<
    (Vec<Element>, usize),
    ParseError,
>)
    requires
        cs@ == text@,
        ascii ==> text.is_ascii(),
        pos <= cs@.len(),
    ensures
        match elems_value(elems_text(cs@, pos as int).0) {
            Ok(vs) => r matches Ok((v, q)) && elems_of(v@) == vs && q == elems_text(
                cs@,
                pos as int,
            ).1 && q <= cs@.len(),
            Err(row) => r matches Err(ParseError::MalformedTableRow(t)) && t@ == row,
        },
{
    let mut v: Vec<Element> = Vec::new();
    let mut p: usize = pos;
    let ghost done: Seq<ElemText> = Seq::empty();
    assert(elems_of(v@) =~= Seq::<ElemView>::empty());
    assert(done + elems_text(cs@, pos as int).0 =~= elems_text(cs@, pos as int).0);
    loop
        invariant
            cs@ == text@,
            ascii ==> text.is_ascii(),
            pos <= p <= cs@.len(),
            elems_text(cs@, pos as int).0 == done + elems_text(cs@, p as int).0,
            elems_text(cs@, pos as int).1 == elems_text(cs@, p as int).1,
            elems_value(done) == Ok::<Seq<ElemView>, Seq<char>>(elems_of(v@)),
        decreases cs@.len() - p,
    {
        proof {
            lemma_elem_text_end(cs@, p as int);
        }
        match scan_elem(text, cs, ascii, p) {
            Err(e) => {
                proof {
                    let (x, q) = elem_text(cs@, p as int)->0;
                    let rest = elems_text(cs@, q).0;
                    assert(elems_text(cs@, p as int).0 == seq![x] + rest);
                    assert(done + elems_text(cs@, p as int).0 =~= done.push(x) + rest);
                    assert(done.push(x).drop_last() =~= done);
                    lemma_elems_value_err(done.push(x), rest);
                }
                return Err(e);
            },
            Ok(Some((el, q))) => {
                proof {
                    let (x, q2) = elem_text(cs@, p as int)->0;
                    let rest = elems_text(cs@, q2).0;
                    assert(elems_text(cs@, p as int).0 == seq![x] + rest);
                    assert(done + elems_text(cs@, p as int).0 =~= done.push(x) + rest);
                    assert(done.push(x).drop_last() =~= done);
                    done = done.push(x);
                }
                let ghost v0 = v@;
                v.push(el);
                assert(elems_of(v@) =~= elems_of(v0).push(el@));
                p = q;
            },
            Ok(None) => {
                assert(done + elems_text(cs@, p as int).0 =~= done);
                return Ok((v, p));
            },
        }
    }
}

/// The model at `pos` and where it ends, or the first malformed row.
fn scan_model(text: &str, cs: &Vec<char>, ascii: bool, pos: usize) -> (r: Result<
    Option<(Model, usize)>,
    ParseError,
>)
    requires
        cs@ == text@,
        ascii ==> text.is_ascii(),
        pos <= cs@.len(),
    ensures
        match model_text(cs@, pos as int) {
            None => r matches Ok(None),
            Some((m, end)) => match model_value(m) {
                Ok(v) => r matches Ok(Some((md, q))) && md@ == v && q == end && pos < q
                    <= cs@.len(),
                Err(row) => r matches Err(ParseError::MalformedTableRow(t)) && t@ == row,
            },
        },
{
    proof {
        lemma_model_text_end(cs@, pos as int);
    }
    let (name, at_inputs) = match scan_header(text, cs, ascii, pos) {
        Some(x) => x,
        None => return Ok(None),
    };
    let kin = vec!['.', 'i', 'n', 'p', 'u', 't', 's'];
    assert(kin@ =~= kw_inputs());
    let (ins, at_outputs) = match scan_ports(text, cs, ascii, at_inputs, &kin) {
        Some(x) => x,
        None => return Ok(None),
    };
    let kout = vec!['.', 'o', 'u', 't', 'p', 'u', 't', 's'];
    assert(kout@ =~= kw_outputs());
    let (outs, at_elems) = match scan_ports(text, cs, ascii, at_outputs, &kout) {
        Some(x) => x,
        None => return Ok(None),
    };
    match scan_elems(text, cs, ascii, at_elems) {
        Err(e) => Err(e),
        Ok((els, q)) => {
            let m = Model::from_parts(name, vars_named(ins), vars_named(outs), els);
            Ok(Some((m, q)))
        },
    }
}

pub open spec fn models_of(v: Seq<Model>) -> Seq<ModelView> {
    v.map_values(|m: Model| m@)
}

/// The models of the whole text, or the first malformed table row.
pub(crate) fn scan_models(text: &str, cs: &Vec<char>, ascii: bool) -> (r: Result<
    Vec<Model>,
    ParseError,
>)
    requires
        cs@ == text@,
        ascii ==> text.is_ascii(),
    ensures
        match design_of(cs@) {
            Ok(vs) => r matches Ok(v) && models_of(v@) == vs,
            Err(row) => r matches Err(ParseError::MalformedTableRow(t)) && t@ == row,
        },
{
    let mut v: Vec<Model> = Vec::new();
    let mut p: usize = 0;
    let n = cs.len();
    let ghost done: Seq<ModelText> = Seq::empty();
    assert(models_of(v@) =~= Seq::<ModelView>::empty());
    assert(done + models_text(cs@, 0) =~= models_text(cs@, 0));
    while p < n
        invariant
            cs@ == text@,
            ascii ==> text.is_ascii(),
            n == cs@.len(),
            p <= n,
            models_text(cs@, 0) == done + models_text(cs@, p as int),
            models_value(done) == Ok::<Seq<ModelView>, Seq<char>>(models_of(v@)),
        decreases n - p,
    {
        match scan_model(text, cs, ascii, p) {
            Err(e) => {
                proof {
                    let (x, q) = model_text(cs@, p as int)->0;
                    let rest = models_text(cs@, q);
                    assert(models_text(cs@, p as int) == seq![x] + rest);
                    assert(done + models_text(cs@, p as int) =~= done.push(x) + rest);
                    assert(done.push(x).drop_last() =~= done);
                    lemma_models_value_err(done.push(x), rest);
                }
                return Err(e);
            },
            Ok(Some((m, q))) => {
                proof {
                    let (x, q2) = model_text(cs@, p as int)->0;
                    let rest = models_text(cs@, q2);
                    assert(models_text(cs@, p as int) == seq![x] + rest);
                    assert(done + models_text(cs@, p as int) =~= done.push(x) + rest);
                    assert(done.push(x).drop_last() =~= done);
                    done = done.push(x);
                }
                let ghost v0 = v@;
                v.push(m);
                assert(models_of(v@) =~= models_of(v0).push(m@));
                p = q;
            },
            Ok(None) => {
                proof {
                    lemma_line_end(cs@, p as int);
                }
                match find_line_end(cs, p) {
                    Some(e) => {
                        p = e + 1;
                    },
                    None => {
                        assert(done + models_text(cs@, p as int) =~= done);
                        return Ok(v);
                    },
                }
            },
        }
    }
    assert(done + models_text(cs@, p as int) =~= done);
    Ok(v)
}

/// The signal names an element refers to.
pub open spec fn elem_names(e: ElemView) -> Set<Seq<char>> {
    match e {
        ElemView::Lut(l) => l.inputs.to_set().insert(l.output),
        ElemView::Reg(g) => set![g.input, g.output, g.control],
    }
}

/// The signal names that the first `n` elements of a list refer to.
pub open spec fn elems_names(es: Seq<ElemView>, n: int) -> Set<Seq<char>> {
    Set::new(|k: Seq<char>| exists|j: int| 0 <= j < n && elem_names(es[j]).contains(k))
}

/// The signal names a model refers to: its ports and its elements' signals.
pub open spec fn model_names(m: ModelView) -> Set<Seq<char>> {
    m.inputs.to_set() + m.outputs.to_set() + elems_names(m.elements, m.elements.len() as int)
}

/// The signal names that the first `n` models of a list refer to.
pub open spec fn models_names(ms: Seq<ModelView>, n: int) -> Set<Seq<char>> {
    Set::new(|k: Seq<char>| exists|i: int| 0 <= i < n && model_names(ms[i]).contains(k))
}

/// The signal names a design refers to.
pub open spec fn design_names(ms: Seq<ModelView>) -> Set<Seq<char>> {
    models_names(ms, ms.len() as int)
}

/// Registering two sets of names in turn registers their union.
pub proof fn lemma_registered_union(m: Map<Seq<char>, u8>, a: Set<Seq<char>>, b: Set<Seq<char>>)
    ensures
        registered(registered(m, a), b) == registered(m, a + b),
{
    assert(registered(registered(m, a), b) =~= registered(m, a + b));
}

/// Adds each of `vs` to the store.
fn register_vars(vs: &Vec<Var>, store: &mut Store)
    ensures
        final(store)@ == registered(old(store)@, names_of(vs@).to_set()),
{
    let mut i: usize = 0;
    let ghost all = names_of(vs@);
    assert(all.take(0).to_set() =~= Set::<Seq<char>>::empty());
    assert(store@ =~= registered(store@, Set::<Seq<char>>::empty()));
    while i < vs.len()
        invariant
            all == names_of(vs@),
            i <= vs@.len(),
            store@ == registered(old(store)@, all.take(i as int).to_set()),
        decreases vs.len() - i,
    {
        let ghost s0 = store@;
        store.register(vs[i].name());
        proof {
            lemma_registered_union(old(store)@, all.take(i as int).to_set(), set![all[i as int]]);
            assert(all.take(i as int + 1) =~= all.take(i as int).push(all[i as int]));
            lemma_push_to_set(all.take(i as int), all[i as int]);
            assert(all.take(i as int).to_set().insert(all[i as int]) =~= all.take(i as int).to_set()
                + set![all[i as int]]);
        }
        i = i + 1;
    }
    assert(all.take(i as int) =~= all);
}

/// Adds the signals of an element to the store.
fn register_elem(e: &Element, store: &mut Store)
    ensures
        final(store)@ == registered(old(store)@, elem_names(e@)),
{
    match e {
        Element::LUT(l) => {
            register_vars(l.inputs(), store);
            store.register(l.output().name());
            proof {
                lemma_registered_union(old(store)@, l@.inputs.to_set(), set![l@.output]);
                assert(l@.inputs.to_set().insert(l@.output) =~= l@.inputs.to_set() + set![
                    l@.output,
                ]);
            }
        },
        Element::Register(g) => {
            let ghost s0 = store@;
            store.register(g.input().name());
            store.register(g.output().name());
            store.register(g.control().name());
            assert(store@ =~= registered(s0, set![g@.input, g@.output, g@.control]));
        },
    }
}

/// Adds the signals of a model to the store.
fn register_model(m: &Model, store: &mut Store)
    ensures
        final(store)@ == registered(old(store)@, model_names(m@)),
{
    let ghost mv = m@;
    register_vars(m.inputs(), store);
    register_vars(m.outputs(), store);
    let ghost ports = mv.inputs.to_set() + mv.outputs.to_set();
    proof {
        lemma_registered_union(old(store)@, mv.inputs.to_set(), mv.outputs.to_set());
        assert(elems_names(mv.elements, 0) =~= Set::<Seq<char>>::empty());
        assert(ports + elems_names(mv.elements, 0) =~= ports);
    }
    let els = m.elements();
    let mut i: usize = 0;
    while i < els.len()
        invariant
            mv == m@,
            elems_of(els@) == mv.elements,
            ports == mv.inputs.to_set() + mv.outputs.to_set(),
            i <= els@.len(),
            store@ == registered(old(store)@, ports + elems_names(mv.elements, i as int)),
        decreases els.len() - i,
    {
        register_elem(&els[i], store);
        proof {
            let a = ports + elems_names(mv.elements, i as int);
            let b = elem_names(mv.elements[i as int]);
            lemma_registered_union(old(store)@, a, b);
            assert forall|k: Seq<char>| (a + b).contains(k) == (ports + elems_names(
                mv.elements,
                i as int + 1,
            )).contains(k) by {
                if b.contains(k) {
                    assert(elems_names(mv.elements, i as int + 1).contains(k));
                }
                if elems_names(mv.elements, i as int + 1).contains(k) {
                    let j = choose|j: int|
                        0 <= j < i as int + 1 && elem_names(mv.elements[j]).contains(k);
                    if j < i {
                        assert(elems_names(mv.elements, i as int).contains(k));
                    }
                }
            }
            assert(a + b =~= ports + elems_names(mv.elements, i as int + 1));
        }
        i = i + 1;
    }
}

/// Adds the signals of every model to the store.
pub(crate) fn register_models(ms: &Vec<Model>, store: &mut Store)
    ensures
        final(store)@ == registered(old(store)@, design_names(models_of(ms@))),
{
    let ghost mv = models_of(ms@);
    let mut i: usize = 0;
    assert(models_names(mv, 0) =~= Set::<Seq<char>>::empty());
    assert(store@ =~= registered(store@, Set::<Seq<char>>::empty()));
    while i < ms.len()
        invariant
            mv == models_of(ms@),
            i <= ms@.len(),
            store@ == registered(old(store)@, models_names(mv, i as int)),
        decreases ms.len() - i,
    {
        register_model(&ms[i], store);
        proof {
            let a = models_names(mv, i as int);
            let b = model_names(mv[i as int]);
            lemma_registered_union(old(store)@, a, b);
            assert forall|k: Seq<char>| (a + b).contains(k) == models_names(
                mv,
                i as int + 1,
            ).contains(k) by {
                if b.contains(k) {
                    assert(models_names(mv, i as int + 1).contains(k));
                }
                if models_names(mv, i as int + 1).contains(k) {
                    let j = choose|j: int| 0 <= j < i as int + 1 && model_names(mv[j]).contains(k);
                    if j < i {
                        assert(a.contains(k));
                    }
                }
            }
            assert(a + b =~= models_names(mv, i as int + 1));
        }
        i = i + 1;
    }
}

/// The text of `input` from character `q` on.
fn rest_of<'a>(input: &'a str, q: usize) -> (r: &'a str)
    requires
        q <= input@.len(),
    ensures
        r@ == input@.skip(q as int),
{
    let n = input.unicode_len();
    let r = input.substring_char(q, n);
    assert(r@ =~= input@.skip(q as int));
    r
}

/// Reads a `.model <name>` line: the name and the text after the line.
pub fn get_model_name(input: &str) -> (r: Option<(&str, String)>)
    ensures
        match model_header(input@, 0) {
            Some((name, next)) => r matches Some((rest, n)) && n@ == name && rest@ == input@.skip(
                next,
            ),
            None => r is None,
        },
{
    let cs = to_chars(input);
    let ascii = input.is_ascii();
    match scan_header(input, &cs, ascii, 0) {
        Some((name, q)) => Some((rest_of(input, q), name)),
        None => None,
    }
}

/// Reads a line of port names after the word `kw`, adding them to the store.
fn get_ports<'a>(input: &'a str, kw: &Vec<char>, store: &mut Store) -> (r: Option<
    (&'a str, Vec<Var>),
>)
    ensures
        match port_line(input@, 0, kw@) {
            Some((names, next)) => r matches Some((rest, v)) && names_of(v@) == names && rest@
                == input@.skip(next) && final(store)@ == registered(old(store)@, names.to_set()),
            None => r is None && final(store)@ == old(store)@,
        },
{
    let cs = to_chars(input);
    let ascii = input.is_ascii();
    match scan_ports(input, &cs, ascii, 0, kw) {
        Some((names, q)) => {
            let vs = vars_named(names);
            register_vars(&vs, store);
            Some((rest_of(input, q), vs))
        },
        None => None,
    }
}

/// Reads an `.inputs` line: its signals, added to the store, and the text
/// after the line.
pub fn get_inputs<'a>(input: &'a str, store: &mut Store) -> (r: Option<(&'a str, Vec<Var>)>)
    ensures
        match port_line(input@, 0, kw_inputs()) {
            Some((names, next)) => r matches Some((rest, v)) && names_of(v@) == names && rest@
                == input@.skip(next) && final(store)@ == registered(old(store)@, names.to_set()),
            None => r is None && final(store)@ == old(store)@,
        },
{
    let kw = vec!['.', 'i', 'n', 'p', 'u', 't', 's'];
    assert(kw@ =~= kw_inputs());
    get_ports(input, &kw, store)
}

/// Reads an `.outputs` line: its signals, added to the store, and the text
/// after the line.
pub fn get_outputs<'a>(input: &'a str, store: &mut Store) -> (r: Option<(&'a str, Vec<Var>)>)
    ensures
        match port_line(input@, 0, kw_outputs()) {
            Some((names, next)) => r matches Some((rest, v)) && names_of(v@) == names && rest@
                == input@.skip(next) && final(store)@ == registered(old(store)@, names.to_set()),
            None => r is None && final(store)@ == old(store)@,
        },
{
    let kw = vec!['.', 'o', 'u', 't', 'p', 'u', 't', 's'];
    assert(kw@ =~= kw_outputs());
    get_ports(input, &kw, store)
}

/// Reads a `.names` line and its rows: the table, its signals added to the
/// store, and the text after the rows; or the first malformed row.
pub fn get_lut<'a>(input: &'a str, store: &mut Store) -> (r: Result<
    Option<(&'a str, Element)>,
    ParseError,
>)
    ensures
        match lut_text(input@, 0) {
            None => r matches Ok(None) && final(store)@ == old(store)@,
            Some((names, rows, end)) => match elem_value(ElemText::Lut(names, rows)) {
                Ok(v) => r matches Ok(Some((rest, e))) && e@ == v && rest@ == input@.skip(end)
                    && final(store)@ == registered(old(store)@, elem_names(v)),
                Err(row) => r matches Err(ParseError::MalformedTableRow(t)) && t@ == row
                    && final(store)@ == old(store)@,
            },
        },
{
    let cs = to_chars(input);
    let ascii = input.is_ascii();
    match scan_lut(input, &cs, ascii, 0) {
        Ok(Some((l, q))) => {
            let e = Element::LUT(l);
            register_elem(&e, store);
            Ok(Some((rest_of(input, q), e)))
        },
        Ok(None) => Ok(None),
        Err(e) => Err(e),
    }
}

/// Reads a `.latch` line: the latch, its signals added to the store, and the
/// text after the line.
pub fn get_reg<'a>(input: &'a str, store: &mut Store) -> (r: Option<(&'a str, Element)>)
    ensures
        match latch_text(input@, 0) {
            Some((g, next)) => r matches Some((rest, e)) && e@ == ElemView::Reg(g) && rest@
                == input@.skip(next) && final(store)@ == registered(
                old(store)@,
                elem_names(ElemView::Reg(g)),
            ),
            None => r is None && final(store)@ == old(store)@,
        },
{
    let cs = to_chars(input);
    let ascii = input.is_ascii();
    match scan_latch(input, &cs, ascii, 0) {
        Some((g, q)) => {
            let e = Element::Register(g);
            register_elem(&e, store);
            Some((rest_of(input, q), e))
        },
        None => None,
    }
}

/// Reads one model: the model, its signals added to the store, and the text
/// after it; or the first malformed row.
pub fn get_model<'a>(input: &'a str, store: &mut Store) -> (r: Result<
    Option<(&'a str, Model)>,
    ParseError,
>)
    ensures
        match model_text(input@, 0) {
            None => r matches Ok(None) && final(store)@ == old(store)@,
            Some((m, end)) => match model_value(m) {
                Ok(v) => r matches Ok(Some((rest, md))) && md@ == v && rest@ == input@.skip(end)
                    && final(store)@ == registered(old(store)@, model_names(v)),
                Err(row) => r matches Err(ParseError::MalformedTableRow(t)) && t@ == row
                    && final(store)@ == old(store)@,
            },
        },
{
    let cs = to_chars(input);
    let ascii = input.is_ascii();
    match scan_model(input, &cs, ascii, 0) {
        Ok(Some((m, q))) => {
            register_model(&m, store);
            Ok(Some((rest_of(input, q), m)))
        },
        Ok(None) => Ok(None),
        Err(e) => Err(e),
    }
}

/// Parsing a text twice gives the same models each time, since they depend
/// on the text alone; and the second parse leaves the store as the first
/// left it.
pub proof fn lemma_parse_twice(
    text: Seq<char>,
    m: Map<Seq<char>, u8>,
    first: Seq<ModelView>,
    second: Seq<ModelView>,
)
    requires
        design_of(text) == Ok::<Seq<ModelView>, Seq<char>>(first),
        design_of(text) == Ok::<Seq<ModelView>, Seq<char>>(second),
    ensures
        first == second,
        registered(registered(m, design_names(first)), design_names(second)) == registered(
            m,
            design_names(first),
        ),
{
    assert(registered(registered(m, design_names(first)), design_names(second)) =~= registered(
        m,
        design_names(first),
    ));
}

} // verus!
