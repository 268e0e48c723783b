//! Character-level text helpers: the whitespace predicate, line splitting
//! and joining (with the round-trip law), and decimal parsing/formatting.

use vstd::prelude::*;

verus! {

/// The Unicode White_Space characters, as documented for `char::is_whitespace`.
pub open spec fn is_ws_char(c: char) -> bool {
    c == ' ' || c == '\t' || c == '\n' || c == '\u{0b}' || c == '\u{0c}' || c == '\r'
        || c == '\u{85}' || c == '\u{a0}' || c == '\u{1680}'
        || ('\u{2000}' <= c && c <= '\u{200a}')
        || c == '\u{2028}' || c == '\u{2029}' || c == '\u{202f}' || c == '\u{205f}'
        || c == '\u{3000}'
}

pub fn char_is_ws(c: char) -> (r: bool)
    ensures
        r == is_ws_char(c),
{
    c == ' ' || c == '\t' || c == '\n' || c == '\u{0b}' || c == '\u{0c}' || c == '\r'
        || c == '\u{85}' || c == '\u{a0}' || c == '\u{1680}'
        || ('\u{2000}' <= c && c <= '\u{200a}')
        || c == '\u{2028}' || c == '\u{2029}' || c == '\u{202f}' || c == '\u{205f}'
        || c == '\u{3000}'
}

/// Every character of the sequence is whitespace.
pub open spec fn all_ws(s: Seq<char>) -> bool {
    forall|i: int| 0 <= i < s.len() ==> is_ws_char(#[trigger] s[i])
}

/// Whether every character of `s` is whitespace.
pub fn str_all_ws(s: &str) -> (r: bool)
    ensures
        r == all_ws(s@),
{
    let n = s.unicode_len();
    let mut i: usize = 0;
    while i < n
        invariant
            i <= n,
            n == s@.len(),
            forall|j: int| 0 <= j < i ==> is_ws_char(#[trigger] s@[j]),
        decreases n - i,
    {
        if !char_is_ws(s.get_char(i)) {
            return false;
        }
        i = i + 1;
    }
    true
}

/// Relies on `String::from` for a single character.
#[verifier::external_body]
pub fn char_to_string(c: char) -> (r: String)
    ensures
        r@ == seq![c],
{
    String::from(c)
}

/// The segments of `s` split on `'\n'`; always at least one segment, and a
/// trailing newline yields a trailing empty segment.
pub open spec fn split_on_nl(s: Seq<char>) -> Seq<Seq<char>>
    decreases s.len(),
{
    if s.len() == 0 {
        seq![Seq::<char>::empty()]
    } else {
        let rest = split_on_nl(s.drop_first());
        if s.first() == '\n' {
            seq![Seq::<char>::empty()] + rest
        } else {
            seq![seq![s.first()] + rest.first()] + rest.drop_first()
        }
    }
}

/// The segments joined back with a single `'\n'` between them.
pub open spec fn join_lines(ls: Seq<Seq<char>>) -> Seq<char>
    decreases ls.len(),
{
    if ls.len() == 0 {
        Seq::<char>::empty()
    } else if ls.len() == 1 {
        ls[0]
    } else {
        ls[0] + seq!['\n'] + join_lines(ls.drop_first())
    }
}

/// A segment with a final carriage return loses it; any other stays whole.
pub open spec fn strip_cr(l: Seq<char>) -> Seq<char> {
    if l.len() > 0 && l.last() == '\r' {
        l.drop_last()
    } else {
        l
    }
}

/// The lines of `s` as `str::lines` reads them: split on `'\n'`, no segment
/// for a final newline (and none at all for empty text), and a `'\r'`
/// immediately before each `'\n'` dropped.
pub open spec fn lines_of(s: Seq<char>) -> Seq<Seq<char>> {
    let raw = split_on_nl(s);
    if s.len() == 0 {
        Seq::<Seq<char>>::empty()
    } else if s.last() == '\n' {
        raw.drop_last().map_values(|l: Seq<char>| strip_cr(l))
    } else if raw.len() == 1 {
        raw
    } else {
        raw.drop_last().map_values(|l: Seq<char>| strip_cr(l)).push(raw.last())
    }
}

pub proof fn lemma_split_on_nl_len(s: Seq<char>)
    ensures
        split_on_nl(s).len() >= 1,
    decreases s.len(),
{
    if s.len() > 0 {
        lemma_split_on_nl_len(s.drop_first());
    }
}

/// Splitting at the first newline peels off one segment.
pub proof fn lemma_split_seg(s: Seq<char>, k: int)
    requires
        0 <= k <= s.len(),
        forall|j: int| 0 <= j < k ==> s[j] != '\n',
        k < s.len() ==> s[k] == '\n',
    ensures
        k == s.len() ==> split_on_nl(s) =~= seq![s],
        k < s.len() ==> split_on_nl(s) =~= seq![s.subrange(0, k)] + split_on_nl(
            s.subrange(k + 1, s.len() as int),
        ),
    decreases s.len(),
{
    lemma_split_on_nl_len(s);
    if s.len() == 0 {
        assert(s =~= Seq::<char>::empty());
        assert(split_on_nl(s) =~= seq![s]);
    } else if k == 0 {
        assert(s.subrange(1, s.len() as int) =~= s.drop_first());
        assert(s.subrange(0, 0) =~= Seq::<char>::empty());
        assert(split_on_nl(s) == seq![Seq::<char>::empty()] + split_on_nl(s.drop_first()));
    } else {
        let rest = s.drop_first();
        lemma_split_seg(rest, k - 1);
        lemma_split_on_nl_len(rest);
        let sp = split_on_nl(rest);
        assert(s.first() != '\n');
        assert(split_on_nl(s) == seq![seq![s.first()] + sp.first()] + sp.drop_first());
        if k == s.len() {
            assert(rest.subrange(0, k - 1) =~= rest);
            assert(sp =~= seq![rest]);
            assert(sp.first() == rest);
            assert(sp.drop_first() =~= Seq::<Seq<char>>::empty());
            assert(seq![s.first()] + rest =~= s);
            assert(split_on_nl(s) =~= seq![seq![s.first()] + rest]);
        } else {
            let tail = s.subrange(k + 1, s.len() as int);
            assert(rest.subrange(k - 1 + 1, rest.len() as int) =~= tail);
            assert(sp =~= seq![rest.subrange(0, k - 1)] + split_on_nl(tail));
            lemma_split_on_nl_len(tail);
            assert(sp.first() == rest.subrange(0, k - 1));
            assert(sp.drop_first() =~= split_on_nl(tail));
            assert(seq![s.first()] + rest.subrange(0, k - 1) =~= s.subrange(0, k));
        }
    }
}

/// Joining the split of `s` gives `s` back.
pub proof fn lemma_join_split(s: Seq<char>)
    ensures
        join_lines(split_on_nl(s)) =~= s,
    decreases s.len(),
{
    if s.len() == 0 {
        assert(join_lines(split_on_nl(s)) == Seq::<char>::empty());
    } else {
        let rest = s.drop_first();
        lemma_join_split(rest);
        lemma_split_on_nl_len(rest);
        let sp = split_on_nl(rest);
        assert(seq![s.first()] + rest =~= s);
        if s.first() == '\n' {
            let whole = seq![Seq::<char>::empty()] + sp;
            assert(split_on_nl(s) == whole);
            assert(whole.drop_first() =~= sp);
            assert(whole.len() >= 2);
            assert(join_lines(whole) == whole[0] + seq!['\n'] + join_lines(sp));
            assert(whole[0] + seq!['\n'] + join_lines(sp) =~= seq!['\n'] + join_lines(sp));
            assert(seq!['\n'] + join_lines(sp) =~= seq![s.first()] + rest);
        } else {
            let head = seq![s.first()] + sp.first();
            let whole = seq![head] + sp.drop_first();
            assert(split_on_nl(s) == whole);
            if sp.len() == 1 {
                assert(join_lines(sp) == sp[0]);
                assert(whole.len() == 1);
                assert(join_lines(whole) == whole[0]);
                assert(whole[0] == head);
                assert(head =~= seq![s.first()] + rest);
            } else {
                assert(whole.len() >= 2);
                assert(whole.drop_first() =~= sp.drop_first());
                assert(whole[0] == head);
                assert(join_lines(whole) == head + seq!['\n'] + join_lines(sp.drop_first()));
                assert(join_lines(sp) == sp[0] + seq!['\n'] + join_lines(sp.drop_first()));
                assert(head + seq!['\n'] + join_lines(sp.drop_first()) =~= seq![s.first()] + (
                sp[0] + seq!['\n'] + join_lines(sp.drop_first())));
                assert(seq![s.first()] + join_lines(sp) =~= s);
            }
        }
    }
}

/// The round-trip law for serialisation: for text with no carriage returns
/// and no trailing newline, joining the lines read out of it restores it
/// exactly.
pub proof fn lemma_lines_round_trip(s: Seq<char>)
    requires
        forall|i: int| 0 <= i < s.len() ==> s[i] != '\r',
        s.len() > 0 ==> s.last() != '\n',
    ensures
        join_lines(lines_of(s)) == s,
{
    let raw = split_on_nl(s);
    lemma_split_on_nl_len(s);
    lemma_join_split(s);
    lemma_split_no_char(s, '\r');
    if s.len() == 0 {
        assert(join_lines(lines_of(s)) =~= s);
    } else if raw.len() == 1 {
        assert(lines_of(s) == raw);
    } else {
        let stripped = raw.drop_last().map_values(|l: Seq<char>| strip_cr(l));
        assert forall|i: int| 0 <= i < raw.drop_last().len() implies strip_cr(
            #[trigger] raw.drop_last()[i],
        ) == raw.drop_last()[i] by {
            let seg = raw.drop_last()[i];
            assert(seg == raw[i]);
            assert(no_char(seg, '\r'));
            if seg.len() > 0 {
                assert(seg[seg.len() - 1] != '\r');
            }
        }
        assert(stripped =~= raw.drop_last());
        assert(lines_of(s) =~= raw.drop_last().push(raw.last()));
        assert(raw.drop_last().push(raw.last()) =~= raw);
    }
}

/// No character of `s` is `c`.
pub open spec fn no_char(s: Seq<char>, c: char) -> bool {
    forall|i: int| 0 <= i < s.len() ==> #[trigger] s[i] != c
}

/// A character absent from `s` is absent from every split segment.
pub proof fn lemma_split_no_char(s: Seq<char>, c: char)
    requires
        no_char(s, c),
    ensures
        forall|i: int|
            0 <= i < split_on_nl(s).len() ==> no_char(#[trigger] split_on_nl(s)[i], c),
    decreases s.len(),
{
    if s.len() > 0 {
        let rest = s.drop_first();
        assert(forall|k: int| 0 <= k < rest.len() ==> #[trigger] rest[k] == s[k + 1]);
        lemma_split_no_char(rest, c);
        lemma_split_on_nl_len(rest);
        let sp = split_on_nl(rest);
        if s.first() == '\n' {
            assert(split_on_nl(s) == seq![Seq::<char>::empty()] + sp);
            assert forall|i: int|
                0 <= i < split_on_nl(s).len() implies no_char(#[trigger] split_on_nl(s)[i], c) by {
                if i > 0 {
                    assert(split_on_nl(s)[i] == sp[i - 1]);
                }
            }
        } else {
            let head = seq![s.first()] + sp.first();
            assert(split_on_nl(s) == seq![head] + sp.drop_first());
            assert forall|i: int|
                0 <= i < split_on_nl(s).len() implies no_char(#[trigger] split_on_nl(s)[i], c) by {
                if i == 0 {
                    assert(no_char(sp.first(), c));
                    assert(forall|j: int|
                        0 < j < head.len() ==> #[trigger] head[j] == sp.first()[j - 1]);
                    assert(head[0] == s[0]);
                } else {
                    assert(split_on_nl(s)[i] == sp[i]);
                }
            }
        }
    }
}

/// Splits `s` on `'\n'`, keeping every segment (a trailing newline yields a
/// trailing empty segment).
pub fn split_raw(s: &str) -> (r: Vec<String>)
    ensures
        r.deep_view() == split_on_nl(s@),
{
    let n = s.unicode_len();
    let mut out: Vec<String> = Vec::new();
    let mut start: usize = 0;
    let mut i: usize = 0;
    proof {
        assert(s@.subrange(0, n as int) =~= s@);
        assert(out.deep_view() + split_on_nl(s@) =~= split_on_nl(s@));
    }
    while i < n
        invariant
            n == s@.len(),
            start <= i <= n,
            forall|j: int| start <= j < i ==> s@[j] != '\n',
            split_on_nl(s@) =~= out.deep_view() + split_on_nl(
                s@.subrange(start as int, n as int),
            ),
        decreases n - i,
    {
        if s.get_char(i) == '\n' {
            let seg = String::from_str(s.substring_char(start, i));
            proof {
                let tail = s@.subrange(start as int, n as int);
                lemma_split_seg(tail, i - start);
                assert(tail.subrange(0, i - start) =~= s@.subrange(start as int, i as int));
                assert(tail.subrange(i - start + 1, tail.len() as int) =~= s@.subrange(
                    i + 1,
                    n as int,
                ));
                assert(out.deep_view().push(seg@) + split_on_nl(s@.subrange(i + 1, n as int))
                    =~= out.deep_view() + (seq![seg@] + split_on_nl(s@.subrange(i + 1, n as int))));
            }
            out.push(seg);
            proof {
                assert(out.deep_view() =~= out.deep_view().subrange(
                    0,
                    out.deep_view().len() - 1,
                ).push(seg@));
            }
            start = i + 1;
        }
        i = i + 1;
    }
    let seg = String::from_str(s.substring_char(start, n));
    proof {
        let tail = s@.subrange(start as int, n as int);
        lemma_split_seg(tail, n - start);
        assert(tail =~= s@.subrange(start as int, n as int));
        assert(out.deep_view().push(seg@) =~= out.deep_view() + seq![seg@]);
    }
    out.push(seg);
    proof {
        assert(out.deep_view() =~= out.deep_view().subrange(0, out.deep_view().len() - 1).push(
            seg@,
        ));
    }
    out
}

/// The lines of `s`, exactly as `lines_of` describes them.
pub fn split_lines(s: &str) -> (r: Vec<String>)
    ensures
        r.deep_view() == lines_of(s@),
{
    let n = s.unicode_len();
    if n == 0 {
        let empty: Vec<String> = Vec::new();
        proof {
            assert(empty.deep_view() =~= lines_of(s@));
        }
        return empty;
    }
    let ends_nl = s.get_char(n - 1) == '\n';
    let mut segs = split_raw(s);
    proof {
        lemma_split_on_nl_len(s@);
    }
    let keep_last = if ends_nl {
        segs.pop();
        false
    } else {
        true
    };
    let m = if keep_last {
        segs.len() - 1
    } else {
        segs.len()
    };
    let ghost before = segs.deep_view();
    let mut idx: usize = 0;
    while idx < m
        invariant
            m <= segs.len(),
            idx <= m,
            segs.deep_view().len() == before.len(),
            forall|j: int| 0 <= j < idx ==> segs.deep_view()[j] == strip_cr(#[trigger] before[j]),
            forall|j: int| idx <= j < before.len() ==> segs.deep_view()[j] == #[trigger] before[j],
        decreases m - idx,
    {
        let ln = segs[idx].as_str().unicode_len();
        if ln > 0 && segs[idx].as_str().get_char(ln - 1) == '\r' {
            let stripped = String::from_str(segs[idx].as_str().substring_char(0, ln - 1));
            proof {
                assert(stripped@ =~= strip_cr(before[idx as int]));
            }
            segs.set(idx, stripped);
        } else {
            proof {
                assert(segs.deep_view()[idx as int] =~= strip_cr(before[idx as int]));
            }
        }
        idx = idx + 1;
    }
    proof {
        let raw = split_on_nl(s@);
        if ends_nl {
            assert(before =~= raw.drop_last());
            assert(segs.deep_view() =~= raw.drop_last().map_values(|l: Seq<char>| strip_cr(l)));
        } else {
            assert(before =~= raw);
            if raw.len() == 1 {
                assert(segs.deep_view() =~= raw);
            } else {
                assert(segs.deep_view() =~= raw.drop_last().map_values(
                    |l: Seq<char>| strip_cr(l),
                ).push(raw.last()));
            }
        }
    }
    segs
}

/// Text ending in a newline splits into at least two raw segments.
pub proof fn lemma_split_trailing_nl(s: Seq<char>)
    requires
        s.len() > 0,
        s.last() == '\n',
    ensures
        split_on_nl(s).len() >= 2,
    decreases s.len(),
{
    let rest = s.drop_first();
    lemma_split_on_nl_len(rest);
    if s.len() == 1 {
        assert(s.first() == '\n');
    } else {
        assert(rest.last() == s.last());
        lemma_split_trailing_nl(rest);
    }
}

/// Non-empty text has at least one line.
pub proof fn lemma_lines_of_nonempty(s: Seq<char>)
    requires
        s.len() > 0,
    ensures
        lines_of(s).len() >= 1,
{
    lemma_split_on_nl_len(s);
    if s.last() == '\n' {
        lemma_split_trailing_nl(s);
    }
}

/// Appending one more line to a join adds one newline and that line.
pub proof fn lemma_join_lines_push(ls: Seq<Seq<char>>, l: Seq<char>)
    ensures
        join_lines(ls.push(l)) == if ls.len() == 0 {
            l
        } else {
            join_lines(ls) + seq!['\n'] + l
        },
    decreases ls.len(),
{
    let p = ls.push(l);
    if ls.len() == 0 {
        assert(p.len() == 1);
        assert(join_lines(p) == p[0]);
        assert(p[0] == l);
    } else if ls.len() == 1 {
        assert(p.len() == 2);
        assert(p.drop_first() =~= seq![l]);
        assert(join_lines(p) == p[0] + seq!['\n'] + join_lines(p.drop_first()));
        assert(join_lines(seq![l]) == l);
        assert(p[0] == ls[0]);
        assert(join_lines(ls) == ls[0]);
    } else {
        lemma_join_lines_push(ls.drop_first(), l);
        assert(p.drop_first() =~= ls.drop_first().push(l));
        assert(join_lines(p) == p[0] + seq!['\n'] + join_lines(p.drop_first()));
        assert(p[0] == ls[0]);
        assert(join_lines(ls) == ls[0] + seq!['\n'] + join_lines(ls.drop_first()));
        assert(ls[0] + seq!['\n'] + (join_lines(ls.drop_first()) + seq!['\n'] + l) =~= (ls[0]
            + seq!['\n'] + join_lines(ls.drop_first())) + seq!['\n'] + l);
    }
}

/// A decimal digit.
pub open spec fn is_digit(c: char) -> bool {
    48 <= (c as u32) && (c as u32) <= 57
}

/// Every character is a decimal digit.
pub open spec fn all_digits(s: Seq<char>) -> bool {
    forall|i: int| 0 <= i < s.len() ==> is_digit(#[trigger] s[i])
}

/// The value of a sequence of decimal digits.
pub open spec fn digits_val(s: Seq<char>) -> int
    decreases s.len(),
{
    if s.len() == 0 {
        0
    } else {
        digits_val(s.drop_last()) * 10 + ((s.last() as u32) as int - 48)
    }
}

pub proof fn lemma_digits_val_nonneg(s: Seq<char>)
    requires
        all_digits(s),
    ensures
        digits_val(s) >= 0,
    decreases s.len(),
{
    if s.len() > 0 {
        assert(all_digits(s.drop_last()));
        lemma_digits_val_nonneg(s.drop_last());
    }
}

/// A longer digit prefix never has a smaller value.
pub proof fn lemma_digits_val_mono(s: Seq<char>, i: int)
    requires
        all_digits(s),
        0 <= i <= s.len(),
    ensures
        digits_val(s) >= digits_val(s.subrange(0, i)),
    decreases s.len() - i,
{
    if i < s.len() {
        lemma_digits_val_mono(s, i + 1);
        let p = s.subrange(0, i + 1);
        assert(p.drop_last() =~= s.subrange(0, i));
        assert(all_digits(p.drop_last()));
        lemma_digits_val_nonneg(p.drop_last());
    } else {
        assert(s.subrange(0, i) =~= s);
    }
}

/// The digit text of `s`, skipping one optional leading `'+'`; what
/// `u64` parsing accepts.
pub open spec fn num_body(s: Seq<char>) -> Seq<char> {
    if s.len() > 0 && s[0] == '+' {
        s.drop_first()
    } else {
        s
    }
}

/// Whether `s` parses as a `u64`: an optional `'+'`, then at least one
/// digit, with a value that fits.
pub open spec fn parses_u64(s: Seq<char>) -> bool {
    let d = num_body(s);
    d.len() > 0 && all_digits(d) && digits_val(d) <= u64::MAX
}

/// Parses `s` as `u64` exactly as `str::parse::<u64>` does for the inputs
/// this crate meets: `Some` exactly when an optional `'+'` is followed by
/// one or more digits whose value fits.
pub fn parse_u64(s: &str) -> (r: Option<u64>)
    ensures
        r is Some <==> parses_u64(s@),
        r is Some ==> r->0 == digits_val(num_body(s@)),
{
    let n = s.unicode_len();
    let start: usize = if n > 0 && s.get_char(0) == '+' {
        1
    } else {
        0
    };
    let ghost d = num_body(s@);
    proof {
        assert(d =~= s@.subrange(start as int, n as int));
    }
    if start >= n {
        return None;
    }
    let mut acc: u64 = 0;
    let mut i: usize = start;
    while i < n
        invariant
            n == s@.len(),
            start <= i <= n,
            d == num_body(s@),
            d =~= s@.subrange(start as int, n as int),
            all_digits(d.subrange(0, i - start)),
            acc == digits_val(d.subrange(0, i - start)),
        decreases n - i,
    {
        let c = s.get_char(i);
        let cv = c as u32;
        proof {
            assert(d[i - start] == c);
        }
        if cv < 48 || cv > 57 {
            proof {
                assert(!is_digit(d[i - start]));
                assert(!all_digits(d));
            }
            return None;
        }
        let dig: u64 = (cv - 48) as u64;
        proof {
            assert(d.subrange(0, i - start + 1).drop_last() =~= d.subrange(0, i - start));
            assert(all_digits(d.subrange(0, i - start + 1)));
            assert(digits_val(d.subrange(0, i - start + 1)) == acc * 10 + dig);
        }
        let ghost grown = digits_val(d.subrange(0, i - start + 1));
        match acc.checked_mul(10) {
            Some(x) => {
                match x.checked_add(dig) {
                    Some(y) => {
                        acc = y;
                    },
                    None => {
                        proof {
                            assert(grown > u64::MAX);
                            if all_digits(d) {
                                lemma_digits_val_mono(d, i - start + 1);
                            }
                        }
                        return None;
                    },
                }
            },
            None => {
                proof {
                    assert(acc * 10 > u64::MAX);
                    assert(grown > u64::MAX);
                    if all_digits(d) {
                        lemma_digits_val_mono(d, i - start + 1);
                    }
                }
                return None;
            },
        }
        i = i + 1;
    }
    proof {
        assert(d.subrange(0, n - start) =~= d);
    }
    Some(acc)
}

/// Whether every character of `s` is a decimal digit.
pub fn str_all_digits(s: &str) -> (r: bool)
    ensures
        r == all_digits(s@),
{
    let n = s.unicode_len();
    let mut i: usize = 0;
    while i < n
        invariant
            i <= n,
            n == s@.len(),
            forall|j: int| 0 <= j < i ==> is_digit(#[trigger] s@[j]),
        decreases n - i,
    {
        let cv = s.get_char(i) as u32;
        if cv < 48 || cv > 57 {
            return false;
        }
        i = i + 1;
    }
    true
}

/// The character for one decimal digit value.
pub open spec fn digit_char(d: int) -> char {
    if d == 0 {
        '0'
    } else if d == 1 {
        '1'
    } else if d == 2 {
        '2'
    } else if d == 3 {
        '3'
    } else if d == 4 {
        '4'
    } else if d == 5 {
        '5'
    } else if d == 6 {
        '6'
    } else if d == 7 {
        '7'
    } else if d == 8 {
        '8'
    } else {
        '9'
    }
}

/// The decimal digit characters of `n`, most significant first.
pub open spec fn dec_digits(n: int) -> Seq<char>
    decreases n,
{
    if n < 10 {
        seq![digit_char(n)]
    } else {
        dec_digits(n / 10).push(digit_char(n % 10))
    }
}

fn digit_of(d: u64) -> (r: char)
    requires
        d <= 9,
    ensures
        r == digit_char(d as int),
{
    if d == 0 {
        '0'
    } else if d == 1 {
        '1'
    } else if d == 2 {
        '2'
    } else if d == 3 {
        '3'
    } else if d == 4 {
        '4'
    } else if d == 5 {
        '5'
    } else if d == 6 {
        '6'
    } else if d == 7 {
        '7'
    } else if d == 8 {
        '8'
    } else {
        '9'
    }
}

/// Each character as its own grapheme cell.
pub open spec fn chars_to_cells(s: Seq<char>) -> Seq<Seq<char>> {
    s.map_values(|c: char| seq![c])
}

/// Splitting characters into single-character cells and flattening them
/// back is the identity.
pub proof fn lemma_chars_to_cells_flat(s: Seq<char>)
    ensures
        chars_to_cells(s).flatten() =~= s,
    decreases s.len(),
{
    if s.len() == 0 {
        assert(chars_to_cells(s) =~= Seq::<Seq<char>>::empty());
        assert(Seq::<Seq<char>>::empty().flatten() =~= Seq::<char>::empty());
    } else {
        lemma_chars_to_cells_flat(s.drop_first());
        assert(chars_to_cells(s).drop_first() =~= chars_to_cells(s.drop_first()));
        assert(chars_to_cells(s).first() == seq![s.first()]);
        assert(chars_to_cells(s).flatten() == chars_to_cells(s).first() + chars_to_cells(
            s,
        ).drop_first().flatten());
        assert(seq![s.first()] + s.drop_first() =~= s);
    }
}

/// Appends the decimal digits of `n` to `out`, one single-character cell per
/// digit.
pub fn push_dec_digits(n: u64, out: &mut Vec<String>)
    ensures
        final(out).deep_view() == old(out).deep_view() + chars_to_cells(dec_digits(n as int)),
    decreases n,
{
    if n < 10 {
        let cell = char_to_string(digit_of(n));
        out.push(cell);
        proof {
            assert(chars_to_cells(dec_digits(n as int)) =~= seq![seq![digit_char(n as int)]]);
            assert(out.deep_view() =~= old(out).deep_view() + chars_to_cells(
                dec_digits(n as int),
            ));
        }
    } else {
        push_dec_digits(n / 10, out);
        let ghost mid = out.deep_view();
        let cell = char_to_string(digit_of(n % 10));
        out.push(cell);
        proof {
            assert(out.deep_view() =~= mid.push(seq![digit_char(n as int % 10)]));
            assert(dec_digits(n as int) == dec_digits(n as int / 10).push(
                digit_char(n as int % 10),
            ));
            assert(chars_to_cells(dec_digits(n as int)) =~= chars_to_cells(
                dec_digits(n as int / 10),
            ).push(seq![digit_char(n as int % 10)]));
            assert(out.deep_view() =~= old(out).deep_view() + chars_to_cells(
                dec_digits(n as int),
            ));
        }
    }
}

} // verus!
