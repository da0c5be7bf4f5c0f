use vstd::prelude::*;
use vstd::std_specs::iter::IteratorSpec;

verus! {

/// The characters of `s` in order.
pub(crate) fn chars_of(s: &str) -> (r: Vec<char>)
    ensures
        r@ == s@,
{
    broadcast use vstd::string::axiom_spec_iter, vstd::string::next_postcondition;

    let mut it = s.chars();
    let mut r: Vec<char> = Vec::new();
    loop
        invariant
            r@ + IteratorSpec::remaining(&it) == s@,
            IteratorSpec::decrease(&it) is Some,
        decreases IteratorSpec::decrease(&it)->0,
    {
        let ghost rem = IteratorSpec::remaining(&it);
        let ghost before = r@;
        match it.next() {
            Some(c) => {
                r.push(c);
                assert(r@ + IteratorSpec::remaining(&it) == before + rem) by {
                    assert(rem == seq![c] + rem.drop_first());
                }
            },
            None => {
                assert(r@ + rem == r@);
                return r;
            },
        }
    }
}

/// Relies on `String::push`: appends one character.
#[verifier::external_body]
pub(crate) fn push_char(s: &mut String, c: char)
    ensures
        final(s)@ == old(s)@.push(c),
{
    s.push(c)
}

/// A `String` holding `v[from..to]`.
pub(crate) fn string_of_range(v: &Vec<char>, from: usize, to: usize) -> (r: String)
    requires
        from <= to <= v@.len(),
    ensures
        r@ == v@.subrange(from as int, to as int),
{
    let mut r = String::new();
    let mut i = from;
    while i < to
        invariant
            from <= i <= to <= v@.len(),
            r@ == v@.subrange(from as int, i as int),
        decreases to - i,
    {
        push_char(&mut r, v[i]);
        assert(v@.subrange(from as int, i + 1) == v@.subrange(from as int, i as int).push(v@[i as int]));
        i = i + 1;
    }
    r
}

/// Whether the characters `v[from..to]` are exactly `lit`.
pub(crate) fn range_eq(v: &Vec<char>, from: usize, to: usize, lit: &str) -> (r: bool)
    requires
        from <= to <= v@.len(),
    ensures
        r == (v@.subrange(from as int, to as int) == lit@),
{
    let l = chars_of(lit);
    if to - from != l.len() {
        return false;
    }
    let mut i: usize = 0;
    while i < l.len()
        invariant
            from <= to <= v@.len(),
            to - from == l@.len(),
            l@ == lit@,
            i <= l@.len(),
            forall|k: int| 0 <= k < i ==> v@[from + k] == l@[k],
        decreases l@.len() - i,
    {
        if v[from + i] != l[i] {
            assert(v@.subrange(from as int, to as int)[i as int] != lit@[i as int]);
            return false;
        }
        i = i + 1;
    }
    assert(v@.subrange(from as int, to as int) =~= lit@);
    true
}

/// Whether the string `s` holds exactly `lit`.
pub(crate) fn str_eq(s: &String, lit: &str) -> (r: bool)
    ensures
        r == (s@ == lit@),
{
    let v = chars_of(s.as_str());
    let r = range_eq(&v, 0, v.len(), lit);
    assert(v@.subrange(0, v@.len() as int) == v@);
    r
}

/// The index of the first `'\n'` at or after `i`, or the length when there is none.
pub open spec fn line_end(s: Seq<char>, i: int) -> int
    decreases s.len() - i,
{
    if i >= s.len() {
        s.len() as int
    } else if s[i] == '\n' {
        i
    } else {
        line_end(s, i + 1)
    }
}

pub proof fn lemma_line_end(s: Seq<char>, i: int)
    requires
        0 <= i <= s.len(),
    ensures
        i <= line_end(s, i) <= s.len(),
        line_end(s, i) < s.len() ==> s[line_end(s, i)] == '\n',
        forall|k: int| i <= k < line_end(s, i) ==> s[k] != '\n',
    decreases s.len() - i,
{
    if i < s.len() && s[i] != '\n' {
        lemma_line_end(s, i + 1);
    }
}

pub(crate) fn find_line_end(v: &Vec<char>, i: usize) -> (e: usize)
    requires
        i <= v@.len(),
    ensures
        e == line_end(v@, i as int),
{
    let mut k = i;
    while k < v.len() && v[k] != '\n'
        invariant
            i <= k <= v@.len(),
            line_end(v@, i as int) == line_end(v@, k as int),
        decreases v@.len() - k,
    {
        k = k + 1;
    }
    k
}

/// A line without the one `'\r'` that may end it.
pub open spec fn strip_cr(l: Seq<char>) -> Seq<char> {
    if l.len() > 0 && l.last() == '\r' {
        l.drop_last()
    } else {
        l
    }
}

/// The lines of `s` from index `i` on, split at `'\n'`, each without a final
/// `'\r'`; a final `'\n'` does not start another line.
pub open spec fn lines_from(s: Seq<char>, i: int) -> Seq<Seq<char>>
    decreases s.len() + 1 - i
    via lines_from_decreases
{
    if i < 0 || i >= s.len() {
        seq![]
    } else {
        seq![strip_cr(s.subrange(i, line_end(s, i)))] + lines_from(s, line_end(s, i) + 1)
    }
}

#[via_fn]
proof fn lines_from_decreases(s: Seq<char>, i: int) {
    if 0 <= i < s.len() {
        lemma_line_end(s, i);
    }
}

pub open spec fn lines_of(s: Seq<char>) -> Seq<Seq<char>> {
    lines_from(s, 0)
}

/// Splits text into lines as `lines_of` says.
pub fn split_lines(s: &str) -> (r: Vec<String>)
    ensures
        r@.map_values(|l: String| l@) == lines_of(s@),
{
    let v = chars_of(s);
    let mut r: Vec<String> = Vec::new();
    let mut i: usize = 0;
    while i < v.len()
        invariant
            v@ == s@,
            i <= v@.len(),
            r@.map_values(|l: String| l@) + lines_from(v@, i as int) == lines_of(v@),
        decreases v@.len() - i,
    {
        proof {
            lemma_line_end(v@, i as int);
        }
        let e = find_line_end(&v, i);
        let to = if e > i && v[e - 1] == '\r' {
            e - 1
        } else {
            e
        };
        let line = string_of_range(&v, i, to);
        assert(line@ == strip_cr(v@.subrange(i as int, e as int))) by {
            if e > i && v@[e - 1] == '\r' {
                assert(v@.subrange(i as int, e as int).drop_last() == v@.subrange(i as int, e - 1));
            }
        }
        let ghost before = r@.map_values(|l: String| l@);
        r.push(line);
        assert(r@.map_values(|l: String| l@) == before.push(line@));
        assert(lines_from(v@, i as int) == seq![line@] + lines_from(v@, e + 1));
        assert(before + lines_from(v@, i as int) == before.push(line@) + lines_from(v@, e + 1));
        if e < v.len() {
            i = e + 1;
        } else {
            assert(lines_from(v@, e + 1) == lines_from(v@, e as int));
            i = e;
        }
    }
    assert(lines_from(v@, i as int) == Seq::<Seq<char>>::empty());
    assert(r@.map_values(|l: String| l@) + Seq::<Seq<char>>::empty() == r@.map_values(|l: String| l@));
    r
}

/// The text from index `i` (a line start) on, with each line that starts with
/// `'#'` taken out and each kept line ended by `'\n'`.
pub open spec fn strip_comments_from(s: Seq<char>, i: int) -> Seq<char>
    decreases s.len() - i
    via strip_comments_from_decreases
{
    if i < 0 || i > s.len() {
        seq![]
    } else {
        let e = line_end(s, i);
        let line = s.subrange(i, e);
        let kept = if line.len() > 0 && line[0] == '#' {
            seq![]
        } else {
            line.push('\n')
        };
        if e >= s.len() {
            kept
        } else {
            kept + strip_comments_from(s, e + 1)
        }
    }
}

#[via_fn]
proof fn strip_comments_from_decreases(s: Seq<char>, i: int) {
    if 0 <= i <= s.len() {
        lemma_line_end(s, i);
    }
}

pub open spec fn strip_comments(s: Seq<char>) -> Seq<char> {
    strip_comments_from(s, 0)
}

/// Takes out the comment lines (those whose first character is `#`).
pub fn remove_comments_from_source(source: &str) -> (r: String)
    ensures
        r@ == strip_comments(source@),
{
    let v = chars_of(source);
    let mut out = String::new();
    let mut i: usize = 0;
    loop
        invariant
            v@ == source@,
            i <= v@.len(),
            out@ + strip_comments_from(v@, i as int) == strip_comments(v@),
        decreases v@.len() - i,
    {
        proof {
            lemma_line_end(v@, i as int);
        }
        let e = find_line_end(&v, i);
        let ghost line = v@.subrange(i as int, e as int);
        let ghost before = out@;
        if !(e > i && v[i] == '#') {
            let mut k = i;
            while k < e
                invariant
                    i <= k <= e <= v@.len(),
                    out@ == before + v@.subrange(i as int, k as int),
                decreases e - k,
            {
                push_char(&mut out, v[k]);
                assert(v@.subrange(i as int, k + 1) == v@.subrange(i as int, k as int).push(v@[k as int]));
                k = k + 1;
            }
            push_char(&mut out, '\n');
        }
        let ghost kept = if line.len() > 0 && line[0] == '#' {
            Seq::<char>::empty()
        } else {
            line.push('\n')
        };
        assert(out@ == before + kept);
        if e >= v.len() {
            assert(strip_comments_from(v@, i as int) == kept);
            return out;
        }
        assert(strip_comments_from(v@, i as int) == kept + strip_comments_from(v@, e + 1));
        assert(before + (kept + strip_comments_from(v@, e + 1)) == (before + kept) + strip_comments_from(v@, e + 1));
        i = e + 1;
    }
}

proof fn lemma_line_end_shift(x: Seq<char>, b: Seq<char>, j: int)
    requires
        0 <= j <= b.len(),
    ensures
        line_end(x + b, x.len() + j) == x.len() + line_end(b, j),
    decreases b.len() - j,
{
    if j < b.len() {
        assert((x + b)[x.len() + j] == b[j]);
        if b[j] != '\n' {
            lemma_line_end_shift(x, b, j + 1);
        }
    }
}

proof fn lemma_lines_shift(x: Seq<char>, b: Seq<char>, j: int)
    requires
        0 <= j <= b.len(),
    ensures
        lines_from(x + b, x.len() + j) == lines_from(b, j),
    decreases b.len() - j,
{
    if j < b.len() {
        lemma_line_end_shift(x, b, j);
        lemma_line_end(b, j);
        let e = line_end(b, j);
        assert((x + b).subrange(x.len() + j, x.len() + e) == b.subrange(j, e));
        if e < b.len() {
            lemma_lines_shift(x, b, e + 1);
        }
    }
}

proof fn lemma_line_end_within(t: Seq<char>, n: int, k: int)
    requires
        0 <= k <= n < t.len(),
        forall|m: int| 0 <= m < n ==> t[m] != '\n',
        t[n] == '\n',
    ensures
        line_end(t, k) == n,
    decreases n - k,
{
    if k < n {
        lemma_line_end_within(t, n, k + 1);
    }
}

/// The lines of a line ended by `'\n'` and then more text.
pub proof fn lemma_lines_cons(line: Seq<char>, rest: Seq<char>)
    requires
        forall|m: int| 0 <= m < line.len() ==> line[m] != '\n',
    ensures
        lines_of(line.push('\n') + rest) == seq![strip_cr(line)] + lines_of(rest),
{
    let x = line.push('\n');
    let t = x + rest;
    assert forall|m: int| 0 <= m < line.len() implies t[m] != '\n' by {
        assert(t[m] == line[m]);
    }
    assert(t[line.len() as int] == '\n');
    lemma_line_end_within(t, line.len() as int, 0);
    assert(t.subrange(0, line.len() as int) == line);
    lemma_lines_shift(x, rest, 0);
}

} // verus!
