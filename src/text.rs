use vstd::prelude::*;
use vstd::std_specs::iter::IteratorSpec;

verus! {

/// The characters that Unicode calls white space.
pub open spec fn is_white(c: char) -> bool {
    ('\u{9}' <= c <= '\u{d}') || c == ' ' || c == '\u{85}' || c == '\u{a0}' || c == '\u{1680}' || (
    '\u{2000}' <= c <= '\u{200a}') || c == '\u{2028}' || c == '\u{2029}' || c == '\u{202f}' || c
        == '\u{205f}' || c == '\u{3000}'
}

/// A separator between words: any white space when `ws` holds, else a space.
pub open spec fn is_sep(c: char, ws: bool) -> bool {
    if ws {
        is_white(c)
    } else {
        c == ' '
    }
}

/// The words of `s`, scanning left to right: a separator ends a word, any
/// other character starts a word or extends the current one.
pub open spec fn toks(s: Seq<char>, ws: bool) -> Seq<Seq<char>>
    decreases s.len(),
{
    if s.len() == 0 {
        Seq::empty()
    } else {
        let p = s.drop_last();
        let c = s.last();
        if is_sep(c, ws) {
            toks(p, ws)
        } else if p.len() > 0 && !is_sep(p.last(), ws) {
            toks(p, ws).drop_last().push(toks(p, ws).last().push(c))
        } else {
            toks(p, ws).push(seq![c])
        }
    }
}

/// A text that starts with a word character has a first word, which starts
/// with that character; no word is empty.
pub proof fn lemma_toks_first(s: Seq<char>, ws: bool)
    requires
        s.len() > 0,
        !is_sep(s[0], ws),
    ensures
        toks(s, ws).len() > 0,
        toks(s, ws)[0].len() > 0,
        toks(s, ws)[0][0] == s[0],
    decreases s.len(),
{
    let p = s.drop_last();
    if s.len() == 1 {
        assert(p.len() == 0);
        assert(toks(p, ws) =~= Seq::<Seq<char>>::empty());
        assert(toks(s, ws) =~= seq![seq![s[0]]]);
    } else {
        assert(p[0] == s[0]);
        lemma_toks_first(p, ws);
        let t = toks(p, ws);
        let c = s.last();
        if is_sep(c, ws) {
        } else if !is_sep(p.last(), ws) {
            if t.len() == 1 {
                assert(t.drop_last().push(t.last().push(c))[0] == t[0].push(c));
            } else {
                assert(t.drop_last().push(t.last().push(c))[0] == t[0]);
            }
        } else {
            assert(t.push(seq![c])[0] == t[0]);
        }
    }
}

/// Whether `c` separates words.
pub fn sep(c: char, ws: bool) -> (r: bool)
    ensures
        r == is_sep(c, ws),
{
    if ws {
        ('\u{9}' <= c && c <= '\u{d}') || c == ' ' || c == '\u{85}' || c == '\u{a0}' || c
            == '\u{1680}' || ('\u{2000}' <= c && c <= '\u{200a}') || c == '\u{2028}' || c
            == '\u{2029}' || c == '\u{202f}' || c == '\u{205f}' || c == '\u{3000}'
    } else {
        c == ' '
    }
}

/// The end of the line that starts at `pos`: the index of the first newline
/// at or after `pos`. A last line without a newline has no end.
#[verifier::opaque]
pub open spec fn line_end(s: Seq<char>, pos: int) -> Option<int> {
    if 0 <= pos && exists|e: int|
        pos <= e < s.len() && s[e] == '\n' && forall|j: int| pos <= j < e ==> s[j] != '\n' {
        Some(
            choose|e: int|
                pos <= e < s.len() && s[e] == '\n' && forall|j: int| pos <= j < e ==> s[j] != '\n',
        )
    } else {
        None
    }
}

/// What the end of a line is.
pub proof fn lemma_line_end(s: Seq<char>, pos: int)
    ensures
        line_end(s, pos) matches Some(e) ==> 0 <= pos <= e < s.len() && s[e] == '\n' && forall|
            j: int,
        |
            pos <= j < e ==> s[j] != '\n',
{
    reveal(line_end);
}

/// The characters of `s`.
pub fn to_chars(s: &str) -> (r: Vec<char>)
    ensures
        r@ == s@,
{
    broadcast use vstd::string::axiom_spec_iter, vstd::string::next_postcondition;

    let mut r: Vec<char> = Vec::new();
    let mut it = s.chars();
    assert(r@ + it.remaining() =~= s@);
    loop
        invariant
            r@ + it.remaining() == s@,
            it.obeys_prophetic_iter_laws(),
            it.decrease() is Some,
        decreases it.decrease()->0,
    {
        let ghost rem0 = it.remaining();
        match it.next() {
            Some(c) => {
                let ghost r0 = r@;
                r.push(c);
                assert(r@ + it.remaining() =~= r0 + rem0);
            },
            None => {
                assert(r@ =~= s@);
                return r;
            },
        }
    }
}

/// The end of the line of `cs` that starts at `pos`.
pub fn find_line_end(cs: &Vec<char>, pos: usize) -> (r: Option<usize>)
    requires
        pos <= cs@.len(),
    ensures
        line_end(cs@, pos as int) == (match r {
            Some(e) => Some(e as int),
            None => None::<int>,
        }),
        r matches Some(e) ==> pos <= e < cs@.len(),
{
    let mut i: usize = pos;
    while i < cs.len()
        invariant
            pos <= i <= cs@.len(),
            forall|j: int| pos <= j < i ==> cs@[j] != '\n',
        decreases cs.len() - i,
    {
        if cs[i] == '\n' {
            proof {
                reveal(line_end);
                let e = line_end(cs@, pos as int)->0;
                assert(pos <= e < cs@.len() && cs@[e] == '\n');
                if e < i {
                    assert(false);
                }
                if e > i {
                    assert(false);
                }
            }
            return Some(i);
        }
        i = i + 1;
    }
    proof {
        reveal(line_end);
    }
    None
}

/// The words of `cs[a..b]`, each as the bounds of its characters in `cs`.
pub fn token_spans(cs: &Vec<char>, a: usize, b: usize, ws: bool) -> (r: Vec<(usize, usize)>)
    requires
        a <= b <= cs@.len(),
    ensures
        r@.len() == toks(cs@.subrange(a as int, b as int), ws).len(),
        forall|t: int|
            #![trigger r@[t]]
            0 <= t < r@.len() ==> a <= r@[t].0 < r@[t].1 <= b && cs@.subrange(
                r@[t].0 as int,
                r@[t].1 as int,
            ) == toks(cs@.subrange(a as int, b as int), ws)[t],
{
    let mut r: Vec<(usize, usize)> = Vec::new();
    let mut i: usize = a;
    while i < b
        invariant
            a <= i <= b <= cs@.len(),
            r@.len() == toks(cs@.subrange(a as int, i as int), ws).len(),
            forall|t: int|
                #![trigger r@[t]]
                0 <= t < r@.len() ==> a <= r@[t].0 < r@[t].1 <= i && cs@.subrange(
                    r@[t].0 as int,
                    r@[t].1 as int,
                ) == toks(cs@.subrange(a as int, i as int), ws)[t],
            i > a && !is_sep(cs@[i - 1], ws) ==> r@.len() > 0 && r@.last().1 == i,
        decreases b - i,
    {
        let ghost line = cs@.subrange(a as int, i as int + 1);
        let ghost before = toks(cs@.subrange(a as int, i as int), ws);
        let ghost r0 = r@;
        assert(line.drop_last() =~= cs@.subrange(a as int, i as int));
        assert(line.last() == cs@[i as int]);
        if sep(cs[i], ws) {
            assert(toks(line, ws) == before);
        } else if i > a && !sep(cs[i - 1], ws) {
            let k = r.len() - 1;
            let start = r[k].0;
            assert(a <= r0[k as int].0 < r0[k as int].1 <= i);
            assert(cs@.subrange(r0[k as int].0 as int, r0[k as int].1 as int) == before[k as int]);
            r.set(k, (start, i + 1));
            assert(cs@.subrange(start as int, i as int + 1) =~= cs@.subrange(
                start as int,
                i as int,
            ).push(cs@[i as int]));
            assert(toks(line, ws) == before.drop_last().push(before.last().push(cs@[i as int])));
            assert forall|t: int| 0 <= t < r@.len() implies a <= r@[t].0 < r@[t].1 <= i + 1
                && cs@.subrange(r@[t].0 as int, r@[t].1 as int) == toks(line, ws)[t] by {
                if t < k {
                    assert(r@[t] == r0[t]);
                }
            }
        } else {
            r.push((i, i + 1));
            assert(cs@.subrange(i as int, i as int + 1) =~= seq![cs@[i as int]]);
            assert(toks(line, ws) == before.push(seq![cs@[i as int]]));
            assert forall|t: int| 0 <= t < r@.len() implies a <= r@[t].0 < r@[t].1 <= i + 1
                && cs@.subrange(r@[t].0 as int, r@[t].1 as int) == toks(line, ws)[t] by {
                if t < r0.len() {
                    assert(r@[t] == r0[t]);
                }
            }
        }
        i = i + 1;
    }
    r
}

} // verus!
