//! Verified character-level string utilities: splitting, trimming,
//! lexicographic comparison and searching. Everything is specified against
//! the `Seq<char>` view of the involved strings.

use vstd::prelude::*;

verus! {

/// ASCII whitespace, the separator class used by the configuration parser.
pub open spec fn is_space(c: char) -> bool {
    c == ' ' || c == '\t' || c == '\n' || c == '\r'
}

/// Executable test for [`is_space`].
pub fn is_space_char(c: char) -> (r: bool)
    ensures
        r == is_space(c),
{
    c == ' ' || c == '\t' || c == '\n' || c == '\r'
}

/// Lexicographic "less than or equal" over character sequences, ordering
/// characters by their scalar value.
pub open spec fn lex_le(a: Seq<char>, b: Seq<char>) -> bool
    decreases a.len(),
{
    if a.len() == 0 {
        true
    } else if b.len() == 0 {
        false
    } else if a[0] == b[0] {
        lex_le(a.skip(1), b.skip(1))
    } else {
        a[0] < b[0]
    }
}

/// [`lex_le`] is total: any two sequences are comparable.
pub proof fn lemma_lex_le_total(a: Seq<char>, b: Seq<char>)
    ensures
        lex_le(a, b) || lex_le(b, a),
    decreases a.len(),
{
    if a.len() != 0 && b.len() != 0 {
        if a[0] == b[0] {
            lemma_lex_le_total(a.skip(1), b.skip(1));
        }
    }
}

/// [`lex_le`] is transitive.
pub proof fn lemma_lex_le_transitive(a: Seq<char>, b: Seq<char>, c: Seq<char>)
    requires
        lex_le(a, b),
        lex_le(b, c),
    ensures
        lex_le(a, c),
    decreases a.len(),
{
    if a.len() != 0 && b.len() != 0 && c.len() != 0 {
        if a[0] == b[0] && b[0] == c[0] {
            lemma_lex_le_transitive(a.skip(1), b.skip(1), c.skip(1));
        }
    }
}

/// Comparing two sequences that agree on their first `i` characters reduces
/// to comparing the remainders.
proof fn lemma_lex_le_skip(a: Seq<char>, b: Seq<char>, i: int)
    requires
        0 <= i <= a.len(),
        i <= b.len(),
        forall|k: int| 0 <= k < i ==> a[k] == b[k],
    ensures
        lex_le(a, b) == lex_le(a.skip(i), b.skip(i)),
    decreases i,
{
    if i > 0 {
        assert(a[0] == b[0]);
        assert(forall|k: int| 0 <= k < i - 1 ==> a.skip(1)[k] == b.skip(1)[k]);
        lemma_lex_le_skip(a.skip(1), b.skip(1), i - 1);
        assert(a.skip(1).skip(i - 1) =~= a.skip(i));
        assert(b.skip(1).skip(i - 1) =~= b.skip(i));
    } else {
        assert(a.skip(0) =~= a);
        assert(b.skip(0) =~= b);
    }
}

/// Whether the views of two string slices are equal, decided character by
/// character.
pub fn str_eq(a: &str, b: &str) -> (r: bool)
    ensures
        r == (a@ == b@),
{
    let an: usize = a.unicode_len();
    let bn: usize = b.unicode_len();
    if an != bn {
        return false;
    }
    let mut i: usize = 0;
    while i < an
        invariant
            0 <= i <= an,
            an == a@.len(),
            an == b@.len(),
            forall|k: int| 0 <= k < i ==> a@[k] == b@[k],
        decreases an - i,
    {
        if a.get_char(i) != b.get_char(i) {
            return false;
        }
        i = i + 1;
    }
    proof {
        assert(a@ =~= b@);
    }
    true
}

/// Whether `a` precedes `b` (or equals it) in lexicographic order.
pub fn str_le(a: &str, b: &str) -> (r: bool)
    ensures
        r == lex_le(a@, b@),
{
    let an: usize = a.unicode_len();
    let bn: usize = b.unicode_len();
    let mut i: usize = 0;
    let min: usize = if an < bn { an } else { bn };
    while i < min
        invariant
            0 <= i <= min,
            min == if an < bn { an as int } else { bn as int },
            an == a@.len(),
            bn == b@.len(),
            forall|k: int| 0 <= k < i ==> a@[k] == b@[k],
        decreases min - i,
    {
        let ca = a.get_char(i);
        let cb = b.get_char(i);
        if ca != cb {
            proof {
                lemma_lex_le_skip(a@, b@, i as int);
            }
            return ca < cb;
        }
        i = i + 1;
    }
    proof {
        lemma_lex_le_skip(a@, b@, min as int);
    }
    an <= bn
}

/// All pieces of `s` delimited by `sep`, empty pieces included; there is
/// always at least one piece.
pub open spec fn split_full(s: Seq<char>, sep: char) -> Seq<Seq<char>>
    decreases s.len(),
{
    if s.len() == 0 {
        seq![Seq::<char>::empty()]
    } else {
        let prev = split_full(s.drop_last(), sep);
        if s.last() == sep {
            prev.push(Seq::<char>::empty())
        } else {
            prev.update(prev.len() - 1, prev.last().push(s.last()))
        }
    }
}

/// [`split_full`] always yields at least one piece.
proof fn lemma_split_full_nonempty(s: Seq<char>, sep: char)
    ensures
        split_full(s, sep).len() > 0,
    decreases s.len(),
{
    if s.len() > 0 {
        lemma_split_full_nonempty(s.drop_last(), sep);
    }
}

/// The pieces of `s` delimited by `sep`, with a trailing empty piece dropped:
/// the splitting discipline of `str::split_terminator`.
pub open spec fn split_term(s: Seq<char>, sep: char) -> Seq<Seq<char>> {
    let p = split_full(s, sep);
    if p.last().len() == 0 {
        p.drop_last()
    } else {
        p
    }
}

/// The maximal separator-free chunks of `s`, where `is_sep` classifies the
/// separator characters.
pub open spec fn runs(s: Seq<char>, is_sep: spec_fn(char) -> bool) -> Seq<Seq<char>>
    decreases s.len(),
{
    if s.len() == 0 {
        Seq::empty()
    } else {
        let prev = runs(s.drop_last(), is_sep);
        if is_sep(s.last()) {
            prev
        } else if s.len() == 1 || is_sep(s[s.len() - 2]) {
            prev.push(seq![s.last()])
        } else {
            prev.update(prev.len() - 1, prev.last().push(s.last()))
        }
    }
}

/// Whether no character of `p` is a separator.
pub open spec fn sep_free(p: Seq<char>, is_sep: spec_fn(char) -> bool) -> bool {
    forall|j: int| 0 <= j < p.len() ==> !is_sep(#[trigger] p[j])
}

/// Every chunk produced by [`runs`] is nonempty and separator-free.
pub proof fn lemma_runs_wf(s: Seq<char>, is_sep: spec_fn(char) -> bool)
    ensures
        s.len() > 0 && !is_sep(s.last()) ==> runs(s, is_sep).len() > 0,
        forall|i: int|
            0 <= i < runs(s, is_sep).len() ==> (#[trigger] runs(s, is_sep)[i]).len() > 0
                && sep_free(runs(s, is_sep)[i], is_sep),
    decreases s.len(),
{
    if s.len() > 0 {
        lemma_runs_wf(s.drop_last(), is_sep);
        let prev = runs(s.drop_last(), is_sep);
        if !is_sep(s.last()) && s.len() > 1 && !is_sep(s[s.len() - 2]) {
            assert(s.drop_last().last() == s[s.len() - 2]);
            assert(prev.len() > 0);
            assert(sep_free(prev.last().push(s.last()), is_sep));
        }
    }
}

/// A leading separator does not change the chunks.
pub proof fn lemma_runs_prepend_sep(c: char, t: Seq<char>, is_sep: spec_fn(char) -> bool)
    requires
        is_sep(c),
    ensures
        runs(seq![c] + t, is_sep) == runs(t, is_sep),
    decreases t.len(),
{
    let s = seq![c] + t;
    if t.len() == 0 {
        assert(s =~= seq![c]);
        assert(s.len() == 1);
        assert(s.last() == c);
        assert(s.drop_last() =~= Seq::<char>::empty());
        assert(runs(s.drop_last(), is_sep) =~= Seq::<Seq<char>>::empty());
        assert(runs(s, is_sep) == runs(s.drop_last(), is_sep));
        assert(runs(s, is_sep) =~= runs(t, is_sep));
    } else {
        lemma_runs_prepend_sep(c, t.drop_last(), is_sep);
        assert(s.drop_last() =~= seq![c] + t.drop_last());
        assert(s.last() == t.last());
        if !is_sep(s.last()) {
            if t.len() == 1 {
                assert(s[s.len() - 2] == c);
            } else {
                assert(s[s.len() - 2] == t[t.len() - 2]);
            }
        }
        assert(runs(s, is_sep) =~= runs(t, is_sep));
    }
}

/// Appending one separator-free chunk to a sequence that ends at a chunk
/// boundary appends exactly that chunk.
pub proof fn lemma_runs_append_run(x: Seq<char>, y: Seq<char>, is_sep: spec_fn(char) -> bool)
    requires
        y.len() > 0,
        sep_free(y, is_sep),
        x.len() == 0 || is_sep(x.last()),
    ensures
        runs(x + y, is_sep) == runs(x, is_sep).push(y),
    decreases y.len(),
{
    let s = x + y;
    assert(s.last() == y.last());
    assert(!is_sep(s.last()));
    if y.len() == 1 {
        assert(s.drop_last() =~= x);
        assert(seq![y.last()] =~= y);
        if s.len() > 1 {
            assert(s[s.len() - 2] == x.last());
        }
        assert(runs(s, is_sep) =~= runs(x, is_sep).push(y));
    } else {
        assert(sep_free(y.drop_last(), is_sep));
        lemma_runs_append_run(x, y.drop_last(), is_sep);
        assert(s.drop_last() =~= x + y.drop_last());
        assert(s[s.len() - 2] == y[y.len() - 2]);
        assert(!is_sep(s[s.len() - 2]));
        let prev = runs(s.drop_last(), is_sep);
        assert(prev == runs(x, is_sep).push(y.drop_last()));
        assert(prev.last() == y.drop_last());
        assert(prev.last().push(s.last()) =~= y);
        assert(runs(s, is_sep) =~= runs(x, is_sep).push(y));
    }
}

/// The index of the first occurrence of `c` in `s`, if any.
pub open spec fn find_char(s: Seq<char>, c: char) -> Option<int>
    decreases s.len(),
{
    if s.len() == 0 {
        None
    } else if s[0] == c {
        Some(0int)
    } else {
        match find_char(s.skip(1), c) {
            Some(i) => Some(i + 1),
            None => None,
        }
    }
}

/// [`find_char`] returns exactly the first occurrence.
pub proof fn lemma_find_char(s: Seq<char>, c: char)
    ensures
        match find_char(s, c) {
            Some(i) => 0 <= i < s.len() && s[i] == c && forall|k: int| 0 <= k < i ==> s[k] != c,
            None => forall|k: int| 0 <= k < s.len() ==> s[k] != c,
        },
    decreases s.len(),
{
    if s.len() > 0 && s[0] != c {
        lemma_find_char(s.skip(1), c);
        assert(forall|k: int| 1 <= k < s.len() ==> s[k] == s.skip(1)[k - 1]);
    }
}

/// First occurrence of `c` in `s`, as an index usable for slicing.
pub fn find_char_str(s: &str, c: char) -> (r: Option<usize>)
    ensures
        match r {
            Some(i) => find_char(s@, c) == Some(i as int),
            None => find_char(s@, c) == None::<int>,
        },
{
    let n: usize = s.unicode_len();
    let mut i: usize = 0;
    proof {
        lemma_find_char(s@, c);
    }
    while i < n
        invariant
            0 <= i <= n,
            n == s@.len(),
            forall|k: int| 0 <= k < i ==> s@[k] != c,
        decreases n - i,
    {
        if s.get_char(i) == c {
            proof {
                lemma_find_char(s@, c);
            }
            return Some(i);
        }
        i = i + 1;
    }
    proof {
        lemma_find_char(s@, c);
    }
    None
}

/// Splits `s` at every occurrence of `sep`, dropping a trailing empty piece,
/// exactly as `str::split_terminator` does.
pub fn split_term_str(s: &str, sep: char) -> (r: Vec<String>)
    ensures
        r.deep_view() == split_term(s@, sep),
{
    let n: usize = s.unicode_len();
    let mut pieces: Vec<String> = Vec::new();
    let mut start: usize = 0;
    let mut i: usize = 0;
    proof {
        assert(s@.take(0) =~= Seq::<char>::empty());
        assert(s@.subrange(0, 0) =~= Seq::<char>::empty());
        assert(pieces.deep_view() =~= Seq::<Seq<char>>::empty());
    }
    while i < n
        invariant
            0 <= start <= i <= n,
            n == s@.len(),
            start == 0 || s@[start - 1] == sep,
            forall|k: int| start <= k < i ==> s@[k] != sep,
            split_full(s@.take(i as int), sep) =~= pieces.deep_view().push(
                s@.subrange(start as int, i as int),
            ),
        decreases n - i,
    {
        let ghost prev_full = split_full(s@.take(i as int), sep);
        proof {
            assert(s@.take(i + 1).drop_last() =~= s@.take(i as int));
            assert(s@.take(i + 1).last() == s@[i as int]);
        }
        let c = s.get_char(i);
        if c == sep {
            let ghost dv = pieces.deep_view();
            let piece = String::from_str(s.substring_char(start, i));
            pieces.push(piece);
            proof {
                assert(pieces.deep_view() =~= dv.push(piece@));
                assert(s@.subrange(i + 1, i + 1) =~= Seq::<char>::empty());
                assert(split_full(s@.take(i + 1), sep) =~= prev_full.push(
                    Seq::<char>::empty(),
                ));
            }
            start = i + 1;
        } else {
            proof {
                assert(prev_full.last() == s@.subrange(start as int, i as int));
                assert(prev_full.last().push(s@[i as int]) =~= s@.subrange(
                    start as int,
                    i + 1,
                ));
                assert(split_full(s@.take(i + 1), sep) =~= pieces.deep_view().push(
                    s@.subrange(start as int, i + 1),
                ));
            }
        }
        i = i + 1;
    }
    proof {
        assert(s@.take(n as int) =~= s@);
    }
    if start < n {
        let ghost dv = pieces.deep_view();
        let piece = String::from_str(s.substring_char(start, n));
        pieces.push(piece);
        proof {
            assert(pieces.deep_view() =~= dv.push(piece@));
            assert(split_full(s@, sep).last().len() > 0);
            assert(split_term(s@, sep) =~= pieces.deep_view());
        }
    } else {
        proof {
            assert(s@.subrange(start as int, n as int).len() == 0);
            assert(split_full(s@, sep).last().len() == 0);
            assert(split_full(s@, sep).drop_last() =~= pieces.deep_view());
        }
    }
    pieces
}

/// The separator class that holds exactly for one character.
pub open spec fn char_sep(sep: char) -> spec_fn(char) -> bool {
    |c: char| c == sep
}

/// The maximal `sep`-free chunks of `s`.
pub fn split_runs_char(s: &str, sep: char) -> (r: Vec<String>)
    ensures
        r.deep_view() == runs(s@, char_sep(sep)),
{
    let n: usize = s.unicode_len();
    let mut pieces: Vec<String> = Vec::new();
    let mut open: bool = false;
    let mut start: usize = 0;
    let mut i: usize = 0;
    proof {
        assert(s@.take(0) =~= Seq::<char>::empty());
        assert(pieces.deep_view() =~= Seq::<Seq<char>>::empty());
    }
    while i < n
        invariant
            0 <= i <= n,
            n == s@.len(),
            !open ==> (i == 0 || char_sep(sep)(s@[i - 1])) && runs(s@.take(i as int), char_sep(sep))
                =~= pieces.deep_view(),
            open ==> start < i && (start == 0 || char_sep(sep)(s@[start - 1])) && (forall|k: int|
                start <= k < i ==> !char_sep(sep)(s@[k])) && runs(s@.take(i as int), char_sep(sep))
                =~= pieces.deep_view().push(s@.subrange(start as int, i as int)),
        decreases n - i,
    {
        let ghost prev_runs = runs(s@.take(i as int), char_sep(sep));
        proof {
            assert(s@.take(i + 1).drop_last() =~= s@.take(i as int));
            assert(s@.take(i + 1).last() == s@[i as int]);
            if i > 0 {
                assert(s@.take(i + 1)[i - 1] == s@[i - 1]);
            }
        }
        let c = s.get_char(i);
        if c == sep {
            if open {
                let ghost dv = pieces.deep_view();
                let piece = String::from_str(s.substring_char(start, i));
                pieces.push(piece);
                proof {
                    assert(pieces.deep_view() =~= dv.push(piece@));
                }
                open = false;
            }
        } else {
            if !open {
                start = i;
                open = true;
                proof {
                    assert(s@.subrange(i as int, i + 1) =~= seq![s@[i as int]]);
                    assert(runs(s@.take(i + 1), char_sep(sep)) =~= pieces.deep_view().push(
                        seq![s@[i as int]],
                    ));
                }
            } else {
                proof {
                    assert(prev_runs.last() == s@.subrange(start as int, i as int));
                    assert(prev_runs.last().push(s@[i as int]) =~= s@.subrange(
                        start as int,
                        i + 1,
                    ));
                    assert(runs(s@.take(i + 1), char_sep(sep)) =~= pieces.deep_view().push(
                        s@.subrange(start as int, i + 1),
                    ));
                }
            }
        }
        i = i + 1;
    }
    proof {
        assert(s@.take(n as int) =~= s@);
    }
    if open {
        let ghost dv = pieces.deep_view();
        let piece = String::from_str(s.substring_char(start, n));
        pieces.push(piece);
        proof {
            assert(pieces.deep_view() =~= dv.push(piece@));
        }
    }
    pieces
}

/// The separator class of ASCII whitespace.
pub open spec fn space_sep() -> spec_fn(char) -> bool {
    |c: char| is_space(c)
}

/// The maximal whitespace-free chunks of `s`: its whitespace-separated
/// tokens.
pub fn split_whitespace_str(s: &str) -> (r: Vec<String>)
    ensures
        r.deep_view() == runs(s@, space_sep()),
{
    let n: usize = s.unicode_len();
    let mut pieces: Vec<String> = Vec::new();
    let mut open: bool = false;
    let mut start: usize = 0;
    let mut i: usize = 0;
    proof {
        assert(s@.take(0) =~= Seq::<char>::empty());
        assert(pieces.deep_view() =~= Seq::<Seq<char>>::empty());
    }
    while i < n
        invariant
            0 <= i <= n,
            n == s@.len(),
            !open ==> (i == 0 || space_sep()(s@[i - 1])) && runs(s@.take(i as int), space_sep())
                =~= pieces.deep_view(),
            open ==> start < i && (start == 0 || space_sep()(s@[start - 1])) && (forall|k: int|
                start <= k < i ==> !space_sep()(s@[k])) && runs(s@.take(i as int), space_sep())
                =~= pieces.deep_view().push(s@.subrange(start as int, i as int)),
        decreases n - i,
    {
        let ghost prev_runs = runs(s@.take(i as int), space_sep());
        proof {
            assert(s@.take(i + 1).drop_last() =~= s@.take(i as int));
            assert(s@.take(i + 1).last() == s@[i as int]);
            if i > 0 {
                assert(s@.take(i + 1)[i - 1] == s@[i - 1]);
            }
        }
        let c = s.get_char(i);
        if is_space_char(c) {
            if open {
                let ghost dv = pieces.deep_view();
                let piece = String::from_str(s.substring_char(start, i));
                pieces.push(piece);
                proof {
                    assert(pieces.deep_view() =~= dv.push(piece@));
                }
                open = false;
            }
        } else {
            if !open {
                start = i;
                open = true;
                proof {
                    assert(s@.subrange(i as int, i + 1) =~= seq![s@[i as int]]);
                    assert(runs(s@.take(i + 1), space_sep()) =~= pieces.deep_view().push(
                        seq![s@[i as int]],
                    ));
                }
            } else {
                proof {
                    assert(prev_runs.last() == s@.subrange(start as int, i as int));
                    assert(prev_runs.last().push(s@[i as int]) =~= s@.subrange(
                        start as int,
                        i + 1,
                    ));
                    assert(runs(s@.take(i + 1), space_sep()) =~= pieces.deep_view().push(
                        s@.subrange(start as int, i + 1),
                    ));
                }
            }
        }
        i = i + 1;
    }
    proof {
        assert(s@.take(n as int) =~= s@);
    }
    if open {
        let ghost dv = pieces.deep_view();
        let piece = String::from_str(s.substring_char(start, n));
        pieces.push(piece);
        proof {
            assert(pieces.deep_view() =~= dv.push(piece@));
        }
    }
    pieces
}

/// A single trailing carriage return removed.
pub open spec fn strip_cr(l: Seq<char>) -> Seq<char> {
    if l.len() > 0 && l.last() == '\r' {
        l.drop_last()
    } else {
        l
    }
}

/// The lines of `s`, split as `str::lines` does: terminated by `\n`, with
/// the `\r` of a `\r\n` ending removed. A final line that no newline
/// terminates keeps a trailing `\r`, exactly as `str::lines` keeps it.
pub open spec fn lines_of(s: Seq<char>) -> Seq<Seq<char>> {
    let p = split_term(s, '\n');
    if s.len() > 0 && s.last() != '\n' {
        p.drop_last().map_values(|l: Seq<char>| strip_cr(l)).push(p.last())
    } else {
        p.map_values(|l: Seq<char>| strip_cr(l))
    }
}

/// Splits `s` into its lines.
#[verifier::loop_isolation(false)]
pub fn split_lines(s: &str) -> (r: Vec<String>)
    ensures
        r.deep_view() == lines_of(s@),
{
    let sn: usize = s.unicode_len();
    let terminated: bool = sn == 0 || s.get_char(sn - 1) == '\n';
    let raw = split_term_str(s, '\n');
    let ghost target = lines_of(s@);
    proof {
        lemma_split_full_nonempty(s@, '\n');
        let p = split_full(s@, '\n');
        if !terminated {
            lemma_split_full_nonempty(s@.drop_last(), '\n');
            let prev = split_full(s@.drop_last(), '\n');
            assert(s@.last() != '\n');
            assert(p == prev.update(prev.len() - 1, prev.last().push(s@.last())));
            assert(p.last() == prev.last().push(s@.last()));
            assert(p.last().len() > 0);
            assert(split_term(s@, '\n') == p);
        }
        assert(target.len() == raw.deep_view().len());
        assert forall|k: int| 0 <= k < target.len() implies target[k] == (
            if k + 1 < raw.deep_view().len() || terminated {
                strip_cr(raw.deep_view()[k])
            } else {
                raw.deep_view()[k]
            }
        ) by {
            if terminated {
            } else {
                assert(raw.deep_view() == p);
                if k + 1 < p.len() {
                    assert(target[k] == strip_cr(p.drop_last()[k]));
                }
            }
        }
    }
    let mut out: Vec<String> = Vec::new();
    let mut i: usize = 0;
    proof {
        assert(out.deep_view() =~= target.take(0));
    }
    while i < raw.len()
        invariant
            0 <= i <= raw.len(),
            out.deep_view() =~= target.take(i as int),
        decreases raw.len() - i,
    {
        let ghost dv = out.deep_view();
        let line = &raw[i];
        let n: usize = line.as_str().unicode_len();
        proof {
            assert(raw.deep_view()[i as int] == raw@[i as int]@);
        }
        if (i + 1 < raw.len() || terminated) && n > 0 && line.as_str().get_char(n - 1) == '\r' {
            out.push(String::from_str(line.as_str().substring_char(0, n - 1)));
            proof {
                assert(line@.subrange(0, n - 1) =~= line@.drop_last());
                assert(out.deep_view() =~= dv.push(strip_cr(raw.deep_view()[i as int])));
            }
        } else {
            out.push(line.clone());
            proof {
                assert(out.deep_view() =~= dv.push(raw.deep_view()[i as int]));
                if i + 1 < raw.len() || terminated {
                    assert(strip_cr(raw.deep_view()[i as int]) == raw.deep_view()[i as int]);
                }
            }
        }
        proof {
            assert(out.deep_view() =~= target.take(i + 1));
        }
        i = i + 1;
    }
    proof {
        assert(target.take(target.len() as int) =~= target);
    }
    out
}

/// Leading ASCII whitespace removed.
pub open spec fn trim_front(s: Seq<char>) -> Seq<char>
    decreases s.len(),
{
    if s.len() > 0 && is_space(s[0]) {
        trim_front(s.skip(1))
    } else {
        s
    }
}

/// Trailing ASCII whitespace removed.
pub open spec fn trim_back(s: Seq<char>) -> Seq<char>
    decreases s.len(),
{
    if s.len() > 0 && is_space(s.last()) {
        trim_back(s.drop_last())
    } else {
        s
    }
}

/// Leading and trailing ASCII whitespace removed.
pub open spec fn trim_spec(s: Seq<char>) -> Seq<char> {
    trim_back(trim_front(s))
}

proof fn lemma_trim_front_at(s: Seq<char>, a: int)
    requires
        0 <= a <= s.len(),
        forall|k: int| 0 <= k < a ==> is_space(s[k]),
        a == s.len() || !is_space(s[a]),
    ensures
        trim_front(s) == s.skip(a),
    decreases a,
{
    if a > 0 {
        assert(is_space(s[0]));
        assert(forall|k: int| 0 <= k < a - 1 ==> s.skip(1)[k] == s[k + 1]);
        lemma_trim_front_at(s.skip(1), a - 1);
        assert(s.skip(1).skip(a - 1) =~= s.skip(a));
    } else {
        assert(s.skip(0) =~= s);
    }
}

proof fn lemma_trim_back_at(t: Seq<char>, b: int)
    requires
        0 <= b <= t.len(),
        forall|k: int| b <= k < t.len() ==> is_space(t[k]),
        b == 0 || !is_space(t[b - 1]),
    ensures
        trim_back(t) == t.take(b),
    decreases t.len() - b,
{
    if b < t.len() {
        assert(is_space(t.last()));
        assert(forall|k: int| b <= k < t.len() - 1 ==> t.drop_last()[k] == t[k]);
        lemma_trim_back_at(t.drop_last(), b);
        assert(t.drop_last().take(b) =~= t.take(b));
    } else {
        if t.len() == 0 {
            assert(t.take(0) =~= t);
        } else {
            assert(!is_space(t.last()));
            assert(t.take(t.len() as int) =~= t);
        }
    }
}

/// A copy of `s` with leading and trailing ASCII whitespace removed.
pub fn trim_str(s: &str) -> (r: String)
    ensures
        r@ == trim_spec(s@),
{
    let n: usize = s.unicode_len();
    let mut a: usize = 0;
    while a < n && is_space_char(s.get_char(a))
        invariant
            0 <= a <= n,
            n == s@.len(),
            forall|k: int| 0 <= k < a ==> is_space(s@[k]),
        decreases n - a,
    {
        a = a + 1;
    }
    let mut b: usize = n;
    while b > a && is_space_char(s.get_char(b - 1))
        invariant
            a <= b <= n,
            n == s@.len(),
            forall|k: int| b <= k < n ==> is_space(s@[k]),
        decreases b,
    {
        b = b - 1;
    }
    let r = String::from_str(s.substring_char(a, b));
    proof {
        lemma_trim_front_at(s@, a as int);
        let t = s@.skip(a as int);
        assert(forall|k: int| b - a <= k < t.len() ==> t[k] == s@[k + a]);
        if b > a {
            assert(t[b - a - 1] == s@[b - 1]);
        }
        lemma_trim_back_at(t, b - a);
        assert(t.take(b - a) =~= s@.subrange(a as int, b as int));
    }
    r
}

/// Whether `s` contains the letters `yes` consecutively.
pub open spec fn contains_yes(s: Seq<char>) -> bool {
    exists|i: int|
        0 <= i && i + 3 <= s.len() && #[trigger] s[i] == 'y' && s[i + 1] == 'e' && s[i + 2] == 's'
}

/// Executable search for [`contains_yes`].
pub fn contains_yes_str(s: &str) -> (r: bool)
    ensures
        r == contains_yes(s@),
{
    let n: usize = s.unicode_len();
    if n < 3 {
        return false;
    }
    let mut i: usize = 0;
    while i <= n - 3
        invariant
            0 <= i <= n - 2,
            3 <= n == s@.len(),
            forall|j: int|
                0 <= j < i ==> !(#[trigger] s@[j] == 'y' && s@[j + 1] == 'e' && s@[j + 2] == 's'),
        decreases n - i,
    {
        if s.get_char(i) == 'y' && s.get_char(i + 1) == 'e' && s.get_char(i + 2) == 's' {
            return true;
        }
        i = i + 1;
    }
    false
}

} // verus!
