//! Text building blocks shared by the rest of the crate: joining, splitting,
//! decimal rendering, and the spec functions that say what they produce.

use vstd::prelude::*;

verus! {

/// The contents of a list of strings, each taken by its view.
pub open spec fn views(v: Seq<String>) -> Seq<Seq<char>> {
    v.map_values(|s: String| s@)
}

/// `parts` written one after another with `sep` between each two of them,
/// as `[T]::join` lays them out.
pub open spec fn join(parts: Seq<Seq<char>>, sep: Seq<char>) -> Seq<char>
    decreases parts.len(),
{
    if parts.len() == 0 {
        Seq::empty()
    } else if parts.len() == 1 {
        parts[0]
    } else {
        join(parts.drop_last(), sep) + sep + parts.last()
    }
}

/// `sep` occurs in `s` starting at position `i`.
pub open spec fn matches_at(s: Seq<char>, sep: Seq<char>, i: int) -> bool {
    &&& 0 <= i
    &&& i + sep.len() <= s.len()
    &&& s.subrange(i, i + sep.len()) == sep
}

/// `sep` occurs somewhere in `s`.
pub open spec fn occurs_in(s: Seq<char>, sep: Seq<char>) -> bool {
    exists|j: int| matches_at(s, sep, j)
}

/// The pieces of `s` cut at each occurrence of `sep`, scanning from the left
/// and skipping over each occurrence found; the current piece began at `start`
/// and the scan has reached `i`.
pub open spec fn split_from(s: Seq<char>, sep: Seq<char>, start: int, i: int) -> Seq<Seq<char>>
    decreases s.len() - i,
{
    if sep.len() == 0 || i < 0 || i + sep.len() > s.len() {
        seq![s.subrange(start, s.len() as int)]
    } else if matches_at(s, sep, i) {
        seq![s.subrange(start, i)] + split_from(s, sep, i + sep.len(), i + sep.len())
    } else {
        split_from(s, sep, start, i + 1)
    }
}

/// The pieces of `s` between the occurrences of `sep`, left to right, as
/// `str::split` with a non-empty string pattern yields them.
pub open spec fn split(s: Seq<char>, sep: Seq<char>) -> Seq<Seq<char>> {
    split_from(s, sep, 0, 0)
}

/// The decimal digit `d` as a character.
pub open spec fn digit(d: nat) -> char {
    ((d + 48) as u32) as char
}

/// The decimal numeral of a natural number, without leading zeros.
pub open spec fn natural_decimal(n: nat) -> Seq<char>
    decreases n,
{
    if n < 10 {
        seq![digit(n)]
    } else {
        natural_decimal(n / 10).push(digit(n % 10))
    }
}

/// The decimal numeral of an integer, with a leading `-` when it is negative,
/// as `{}` writes an integer.
pub open spec fn decimal(n: int) -> Seq<char> {
    if n < 0 {
        seq!['-'] + natural_decimal((-n) as nat)
    } else {
        natural_decimal(n as nat)
    }
}

/// Cutting never yields an empty list of pieces.
pub(crate) proof fn lemma_split_from_nonempty(s: Seq<char>, sep: Seq<char>, start: int, i: int)
    ensures
        split_from(s, sep, start, i).len() >= 1,
    decreases s.len() - i,
{
    if sep.len() == 0 || i < 0 || i + sep.len() > s.len() {
    } else if matches_at(s, sep, i) {
        lemma_split_from_nonempty(s, sep, i + sep.len(), i + sep.len());
    } else {
        lemma_split_from_nonempty(s, sep, start, i + 1);
    }
}

/// Joining a list that starts with `a` puts `a` and a separator in front of
/// the join of the rest.
pub(crate) proof fn lemma_join_prepend(a: Seq<char>, rest: Seq<Seq<char>>, sep: Seq<char>)
    requires
        rest.len() >= 1,
    ensures
        join(seq![a] + rest, sep) == a + sep + join(rest, sep),
    decreases rest.len(),
{
    let whole = seq![a] + rest;
    if rest.len() == 1 {
        assert(whole.drop_last() =~= seq![a]);
        assert(whole.last() == rest[0]);
        assert(join(whole, sep) =~= a + sep + join(rest, sep));
    } else {
        assert(whole.drop_last() =~= seq![a] + rest.drop_last());
        lemma_join_prepend(a, rest.drop_last(), sep);
        assert(whole.last() == rest.last());
        assert(join(whole, sep) == join(whole.drop_last(), sep) + sep + whole.last());
        assert(join(rest, sep) == join(rest.drop_last(), sep) + sep + rest.last());
        assert(join(whole, sep) =~= a + sep + join(rest, sep));
    }
}

proof fn lemma_join_split_from(s: Seq<char>, sep: Seq<char>, start: int, i: int)
    requires
        sep.len() > 0,
        0 <= start <= i,
        start <= s.len(),
    ensures
        join(split_from(s, sep, start, i), sep) == s.subrange(start, s.len() as int),
    decreases s.len() - i,
{
    if i + sep.len() > s.len() {
    } else if matches_at(s, sep, i) {
        let m = sep.len() as int;
        let rest = split_from(s, sep, i + m, i + m);
        lemma_split_from_nonempty(s, sep, i + m, i + m);
        lemma_join_split_from(s, sep, i + m, i + m);
        lemma_join_prepend(s.subrange(start, i), rest, sep);
        assert(s.subrange(start, i) + sep + s.subrange(i + m, s.len() as int)
            =~= s.subrange(start, s.len() as int));
    } else {
        lemma_join_split_from(s, sep, start, i + 1);
    }
}

/// Cutting `s` at every `sep` and joining the pieces with `sep` again gives
/// back `s`: `split_str(s, sep)` followed by `join_strings(.., sep)` is the
/// identity for every non-empty separator.
pub proof fn lemma_join_split(s: Seq<char>, sep: Seq<char>)
    requires
        sep.len() > 0,
    ensures
        join(split(s, sep), sep) == s,
{
    lemma_join_split_from(s, sep, 0, 0);
    assert(s.subrange(0, s.len() as int) =~= s);
}

/// Where `sep` does not occur from position `i` on, the rest of `s` is a
/// single piece.
pub(crate) proof fn lemma_split_from_no_match(s: Seq<char>, sep: Seq<char>, start: int, i: int)
    requires
        sep.len() > 0,
        0 <= i,
        forall|j: int| j >= i ==> !matches_at(s, sep, j),
    ensures
        split_from(s, sep, start, i) == seq![s.subrange(start, s.len() as int)],
    decreases s.len() - i,
{
    if i + sep.len() > s.len() {
    } else {
        assert(!matches_at(s, sep, i));
        lemma_split_from_no_match(s, sep, start, i + 1);
    }
}

/// Where `sep` occurs at or after position `i`, there are at least two pieces.
pub(crate) proof fn lemma_split_from_match(s: Seq<char>, sep: Seq<char>, start: int, i: int, j: int)
    requires
        sep.len() > 0,
        0 <= i <= j,
        matches_at(s, sep, j),
    ensures
        split_from(s, sep, start, i).len() >= 2,
    decreases s.len() - i,
{
    if matches_at(s, sep, i) {
        lemma_split_from_nonempty(s, sep, i + sep.len(), i + sep.len());
    } else {
        lemma_split_from_match(s, sep, start, i + 1, j);
    }
}

/// Cutting `s` yields the single piece `s` exactly when `sep` does not occur in it.
pub proof fn lemma_split_single(s: Seq<char>, sep: Seq<char>)
    requires
        sep.len() > 0,
    ensures
        split(s, sep) == seq![s] <==> !occurs_in(s, sep),
{
    if occurs_in(s, sep) {
        let j = choose|j: int| matches_at(s, sep, j);
        lemma_split_from_match(s, sep, 0, 0, j);
    } else {
        lemma_split_from_no_match(s, sep, 0, 0);
        assert(s.subrange(0, s.len() as int) =~= s);
    }
}

/// With two or more parts, a longer separator gives a longer join.
pub(crate) proof fn lemma_join_longer(parts: Seq<Seq<char>>, short: Seq<char>, long: Seq<char>)
    requires
        parts.len() >= 2,
        short.len() < long.len(),
    ensures
        join(parts, short).len() < join(parts, long).len(),
    decreases parts.len(),
{
    if parts.len() > 2 {
        lemma_join_longer(parts.drop_last(), short, long);
    } else {
        assert(parts.drop_last().len() == 1);
        assert(join(parts.drop_last(), short) == parts.drop_last()[0]);
        assert(join(parts.drop_last(), long) == parts.drop_last()[0]);
        assert(join(parts, short) == join(parts.drop_last(), short) + short + parts.last());
        assert(join(parts, long) == join(parts.drop_last(), long) + long + parts.last());
    }
}

/// Where the `i`-th part starts in `join(parts, sep)`: after the parts
/// before it, each followed by one separator.
pub open spec fn join_offset(parts: Seq<Seq<char>>, sep: Seq<char>, i: int) -> int
    decreases i,
{
    if i <= 0 {
        0
    } else {
        join_offset(parts, sep, i - 1) + parts[i - 1].len() + sep.len()
    }
}

proof fn lemma_join_offset_prefix(parts: Seq<Seq<char>>, sep: Seq<char>, i: int)
    requires
        0 <= i < parts.len(),
    ensures
        join_offset(parts.drop_last(), sep, i) == join_offset(parts, sep, i),
    decreases i,
{
    if i > 0 {
        lemma_join_offset_prefix(parts, sep, i - 1);
    }
}

pub(crate) proof fn lemma_join_offset_grows(parts: Seq<Seq<char>>, sep: Seq<char>, i: int, j: int)
    requires
        0 <= i <= j <= parts.len(),
    ensures
        join_offset(parts, sep, i) <= join_offset(parts, sep, j),
    decreases j - i,
{
    if i < j {
        lemma_join_offset_grows(parts, sep, i, j - 1);
    }
}

proof fn lemma_join_len(parts: Seq<Seq<char>>, sep: Seq<char>)
    ensures
        parts.len() == 0 ==> join(parts, sep).len() == 0,
        parts.len() >= 1 ==> join(parts, sep).len() == join_offset(parts, sep, parts.len() - 1)
            + parts.last().len(),
    decreases parts.len(),
{
    let n = parts.len() as int;
    if n >= 2 {
        let p = parts.drop_last();
        lemma_join_len(p, sep);
        lemma_join_offset_prefix(parts, sep, n - 2);
    }
}

proof fn lemma_join_part(parts: Seq<Seq<char>>, sep: Seq<char>, i: int)
    requires
        0 <= i < parts.len(),
    ensures
        join(parts, sep).subrange(join_offset(parts, sep, i), join_offset(parts, sep, i)
            + parts[i].len()) == parts[i],
    decreases parts.len(),
{
    let n = parts.len() as int;
    let t = join(parts, sep);
    if n == 1 {
        assert(t.subrange(0, parts[0].len() as int) =~= parts[0]);
    } else {
        let p = parts.drop_last();
        let tp = join(p, sep);
        assert(t == tp + sep + parts.last());
        lemma_join_len(p, sep);
        lemma_join_offset_prefix(parts, sep, n - 2);
        if i < n - 1 {
            lemma_join_part(p, sep, i);
            lemma_join_offset_prefix(parts, sep, i);
            lemma_join_offset_grows(p, sep, 0, i);
            assert(p[i] == parts[i]);
            if i < n - 2 {
                lemma_join_offset_grows(p, sep, i + 1, n - 2);
                assert(join_offset(p, sep, i + 1) == join_offset(p, sep, i) + p[i].len()
                    + sep.len());
            }
            assert(join_offset(p, sep, i) + p[i].len() <= tp.len());
            assert(t.subrange(join_offset(parts, sep, i), join_offset(parts, sep, i)
                + parts[i].len()) =~= tp.subrange(
                join_offset(p, sep, i),
                join_offset(p, sep, i) + p[i].len(),
            ));
        } else {
            assert(t.subrange(join_offset(parts, sep, i), join_offset(parts, sep, i)
                + parts[i].len()) =~= parts.last());
        }
    }
}

proof fn lemma_join_separator(parts: Seq<Seq<char>>, sep: Seq<char>, i: int)
    requires
        0 <= i < parts.len() - 1,
    ensures
        join(parts, sep).subrange(join_offset(parts, sep, i) + parts[i].len(), join_offset(
            parts,
            sep,
            i + 1,
        )) == sep,
    decreases parts.len(),
{
    let n = parts.len() as int;
    let t = join(parts, sep);
    let p = parts.drop_last();
    let tp = join(p, sep);
    assert(t == tp + sep + parts.last());
    lemma_join_len(p, sep);
    lemma_join_offset_prefix(parts, sep, n - 2);
    if i < n - 2 {
        lemma_join_separator(p, sep, i);
        lemma_join_offset_prefix(parts, sep, i);
        lemma_join_offset_prefix(parts, sep, i + 1);
        lemma_join_offset_grows(p, sep, i + 1, n - 2);
        assert(p[i] == parts[i]);
        assert(join_offset(p, sep, i + 1) == join_offset(p, sep, i) + p[i].len() + sep.len());
        assert(p.len() - 1 == n - 2);
        assert(join_offset(p, sep, i + 1) <= join_offset(p, sep, n - 2));
        assert(join_offset(p, sep, i + 1) <= tp.len());
        lemma_join_offset_grows(p, sep, 0, i);
        assert(t.subrange(join_offset(parts, sep, i) + parts[i].len(), join_offset(
            parts,
            sep,
            i + 1,
        )) =~= tp.subrange(join_offset(p, sep, i) + p[i].len(), join_offset(p, sep, i + 1)));
    } else {
        assert(t.subrange(join_offset(parts, sep, i) + parts[i].len(), join_offset(
            parts,
            sep,
            i + 1,
        )) =~= sep);
    }
}

/// `join(parts, sep)` holds every part, in order, each at its offset, with
/// exactly one `sep` between each two neighbours and nothing else: part `i`
/// stands at `join_offset(parts, sep, i)`, the separator follows it, and the
/// text ends with the last part.
pub proof fn lemma_join_positions(parts: Seq<Seq<char>>, sep: Seq<char>)
    ensures
        parts.len() == 0 ==> join(parts, sep).len() == 0,
        parts.len() >= 1 ==> join(parts, sep).len() == join_offset(parts, sep, parts.len() - 1)
            + parts.last().len(),
        forall|i: int|
            0 <= i < parts.len() ==> join(parts, sep).subrange(
                join_offset(parts, sep, i),
                join_offset(parts, sep, i) + parts[i].len(),
            ) == #[trigger] parts[i],
        forall|i: int|
            0 <= i < parts.len() - 1 ==> join(parts, sep).subrange(
                join_offset(parts, sep, i) + parts[i].len(),
                #[trigger] join_offset(parts, sep, i + 1),
            ) == sep,
{
    lemma_join_len(parts, sep);
    assert forall|i: int| 0 <= i < parts.len() implies join(parts, sep).subrange(
        join_offset(parts, sep, i),
        join_offset(parts, sep, i) + parts[i].len(),
    ) == #[trigger] parts[i] by {
        lemma_join_part(parts, sep, i);
    }
    assert forall|i: int| 0 <= i < parts.len() - 1 implies join(parts, sep).subrange(
        join_offset(parts, sep, i) + parts[i].len(),
        #[trigger] join_offset(parts, sep, i + 1),
    ) == sep by {
        lemma_join_separator(parts, sep, i);
    }
}

proof fn lemma_framed_part(
    head: Seq<char>,
    parts: Seq<Seq<char>>,
    sep: Seq<char>,
    tail: Seq<char>,
    i: int,
)
    requires
        0 <= i < parts.len(),
    ensures
        (head + join(parts, sep) + tail).subrange(
            head.len() + join_offset(parts, sep, i),
            head.len() + join_offset(parts, sep, i) + parts[i].len(),
        ) == parts[i],
{
    let j = join(parts, sep);
    let n = parts.len() as int;
    let h = head.len() as int;
    lemma_join_len(parts, sep);
    lemma_join_part(parts, sep, i);
    lemma_join_offset_grows(parts, sep, 0, i);
    if i < n - 1 {
        lemma_join_offset_grows(parts, sep, i + 1, n - 1);
    }
    let a = join_offset(parts, sep, i);
    assert((head + j + tail).subrange(h + a, h + a + parts[i].len()) =~= j.subrange(
        a,
        a + parts[i].len(),
    ));
}

proof fn lemma_framed_separator(
    head: Seq<char>,
    parts: Seq<Seq<char>>,
    sep: Seq<char>,
    tail: Seq<char>,
    i: int,
)
    requires
        0 <= i < parts.len() - 1,
    ensures
        (head + join(parts, sep) + tail).subrange(
            head.len() + join_offset(parts, sep, i) + parts[i].len(),
            head.len() + join_offset(parts, sep, i + 1),
        ) == sep,
{
    let j = join(parts, sep);
    let n = parts.len() as int;
    let h = head.len() as int;
    lemma_join_len(parts, sep);
    lemma_join_separator(parts, sep, i);
    lemma_join_offset_grows(parts, sep, 0, i);
    lemma_join_offset_grows(parts, sep, i + 1, n - 1);
    let a = join_offset(parts, sep, i) + parts[i].len();
    let b = join_offset(parts, sep, i + 1);
    assert((head + j + tail).subrange(h + a, h + b) =~= j.subrange(a, b));
}

/// `head`, then `parts` joined with `sep`, then `tail`: the head comes
/// first, the tail last, part `i` right after the head at
/// `join_offset(parts, sep, i)` with `sep` after it, and nothing else.
pub proof fn lemma_framed_join(head: Seq<char>, parts: Seq<Seq<char>>, sep: Seq<char>, tail: Seq<char>)
    ensures
        ({
            let t = head + join(parts, sep) + tail;
            let h = head.len() as int;
            &&& t.subrange(0, h) == head
            &&& t.subrange(t.len() - tail.len(), t.len() as int) == tail
            &&& t.len() == h + tail.len() + if parts.len() == 0 {
                0
            } else {
                join_offset(parts, sep, parts.len() - 1) + parts.last().len()
            }
            &&& forall|i: int|
                0 <= i < parts.len() ==> t.subrange(
                    h + join_offset(parts, sep, i),
                    h + join_offset(parts, sep, i) + parts[i].len(),
                ) == #[trigger] parts[i]
            &&& forall|i: int|
                0 <= i < parts.len() - 1 ==> t.subrange(
                    h + join_offset(parts, sep, i) + parts[i].len(),
                    h + #[trigger] join_offset(parts, sep, i + 1),
                ) == sep
        }),
{
    let j = join(parts, sep);
    let t = head + j + tail;
    let h = head.len() as int;
    lemma_join_len(parts, sep);
    assert(t.subrange(0, h) =~= head);
    assert(t.subrange(t.len() - tail.len(), t.len() as int) =~= tail);
    assert forall|i: int| 0 <= i < parts.len() implies t.subrange(
        h + join_offset(parts, sep, i),
        h + join_offset(parts, sep, i) + parts[i].len(),
    ) == #[trigger] parts[i] by {
        lemma_framed_part(head, parts, sep, tail, i);
    }
    assert forall|i: int| 0 <= i < parts.len() - 1 implies t.subrange(
        h + join_offset(parts, sep, i) + parts[i].len(),
        h + #[trigger] join_offset(parts, sep, i + 1),
    ) == sep by {
        lemma_framed_separator(head, parts, sep, tail, i);
    }
}

/// `c` is one of the decimal digits `0` to `9`.
pub open spec fn is_digit(c: char) -> bool {
    '0' <= c && c <= '9'
}

/// The number that a string of decimal digits stands for.
pub open spec fn digits_value(ds: Seq<char>) -> int
    decreases ds.len(),
{
    if ds.len() == 0 {
        0
    } else {
        digits_value(ds.drop_last()) * 10 + (ds.last() as int - '0' as int)
    }
}

proof fn lemma_natural_decimal_reads_back(n: nat)
    ensures
        natural_decimal(n).len() >= 1,
        forall|i: int| 0 <= i < natural_decimal(n).len() ==> is_digit(#[trigger] natural_decimal(n)[i]),
        digits_value(natural_decimal(n)) == n,
        natural_decimal(n)[0] == '0' ==> n == 0,
    decreases n,
{
    let d = natural_decimal(n);
    if n < 10 {
        assert(digit(n) as int == n + 48);
        assert('0' as int == 48);
        assert(d.drop_last() =~= Seq::<char>::empty());
        assert(digits_value(d) == digits_value(d.drop_last()) * 10 + (d.last() as int - '0' as int));
    } else {
        lemma_natural_decimal_reads_back(n / 10);
        let r = natural_decimal(n / 10);
        assert(d == r.push(digit(n % 10)));
        assert(d.drop_last() =~= r);
        assert(digit(n % 10) as int == n % 10 + 48);
        assert('0' as int == 48);
        assert(digits_value(d) == digits_value(r) * 10 + (n % 10));
        assert((n / 10) * 10 + n % 10 == n) by (nonlinear_arith);
        assert forall|i: int| 0 <= i < d.len() implies is_digit(#[trigger] d[i]) by {
            if i < r.len() {
                assert(d[i] == r[i]);
            }
        }
        assert(d[0] == r[0]);
    }
}

/// The numeral of `n` reads back as `n`: for `n >= 0` it is a non-empty
/// string of decimal digits whose value is `n`, with no leading zero
/// unless `n` is zero; for `n < 0` it is `-` followed by such a numeral of
/// `-n`.
pub proof fn lemma_decimal_reads_back(n: int)
    ensures
        n >= 0 ==> {
            &&& decimal(n).len() >= 1
            &&& forall|i: int| 0 <= i < decimal(n).len() ==> is_digit(#[trigger] decimal(n)[i])
            &&& digits_value(decimal(n)) == n
            &&& (decimal(n)[0] == '0' ==> n == 0)
        },
        n < 0 ==> {
            &&& decimal(n).len() >= 2
            &&& decimal(n)[0] == '-'
            &&& forall|i: int| 1 <= i < decimal(n).len() ==> is_digit(#[trigger] decimal(n)[i])
            &&& digits_value(decimal(n).drop_first()) == -n
            &&& decimal(n)[1] != '0'
        },
{
    if n >= 0 {
        lemma_natural_decimal_reads_back(n as nat);
    } else {
        let m = (-n) as nat;
        lemma_natural_decimal_reads_back(m);
        let d = decimal(n);
        assert(d == seq!['-'] + natural_decimal(m));
        assert(d.drop_first() =~= natural_decimal(m));
        assert forall|i: int| 1 <= i < d.len() implies is_digit(#[trigger] d[i]) by {
            assert(d[i] == natural_decimal(m)[i - 1]);
        }
        assert(d[1] == natural_decimal(m)[0]);
    }
}

/// Lines written one after another, each ended by a newline.
pub open spec fn ended_lines(lines: Seq<Seq<char>>) -> Seq<char>
    decreases lines.len(),
{
    if lines.len() == 0 {
        Seq::empty()
    } else {
        ended_lines(lines.drop_last()) + lines.last() + "\n"@
    }
}

pub(crate) proof fn lemma_ended_lines_concat(a: Seq<Seq<char>>, b: Seq<Seq<char>>)
    ensures
        ended_lines(a + b) == ended_lines(a) + ended_lines(b),
    decreases b.len(),
{
    if b.len() == 0 {
        assert(a + b =~= a);
        assert(ended_lines(a) + ended_lines(b) =~= ended_lines(a));
    } else {
        assert((a + b).drop_last() =~= a + b.drop_last());
        lemma_ended_lines_concat(a, b.drop_last());
        assert((a + b).last() == b.last());
        assert(ended_lines(a + b) =~= ended_lines(a) + ended_lines(b));
    }
}

/// Appends one character to a string.
///
/// Trusted: calls `String::push`, which std documents as appending the
/// given `char` to the end of the string.
#[verifier::external_body]
pub(crate) fn push_char(s: &mut String, c: char)
    ensures
        final(s)@ == old(s)@.push(c),
{
    s.push(c);
}

/// The characters of `s`, in order.
pub fn chars_of(s: &str) -> (v: Vec<char>)
    ensures
        v@ == s@,
{
    let n = s.unicode_len();
    let mut v: Vec<char> = Vec::new();
    let mut i: usize = 0;
    while i < n
        invariant
            i <= n,
            n == s@.len(),
            v@ == s@.take(i as int),
        decreases n - i,
    {
        v.push(s.get_char(i));
        assert(s@.take(i + 1) =~= s@.take(i as int).push(s@[i as int]));
        i = i + 1;
    }
    assert(s@.take(n as int) =~= s@);
    v
}

/// Joins `parts` with `sep`, the way `parts.join(sep)` does.
pub fn join_strings(parts: &Vec<String>, sep: &str) -> (r: String)
    ensures
        r@ == join(views(parts@), sep@),
{
    let mut r = String::new();
    let ghost vs = views(parts@);
    let mut i: usize = 0;
    while i < parts.len()
        invariant
            i <= parts.len(),
            vs == views(parts@),
            r@ == join(vs.take(i as int), sep@),
        decreases parts.len() - i,
    {
        if i > 0 {
            r.append(sep);
        }
        r.append(parts[i].as_str());
        proof {
            assert(vs.take(i + 1).drop_last() =~= vs.take(i as int));
            assert(vs.take(i + 1).last() == parts@[i as int]@);
            if i == 0 {
                assert(vs.take(1) =~= seq![parts@[0]@]);
            }
        }
        i = i + 1;
    }
    assert(vs.take(parts.len() as int) =~= vs);
    r
}

/// Whether `sep` occurs in `cs` at position `i`.
fn matches_at_exec(cs: &Vec<char>, sep: &Vec<char>, i: usize) -> (r: bool)
    requires
        i + sep@.len() <= cs@.len(),
    ensures
        r == matches_at(cs@, sep@, i as int),
{
    let m = sep.len();
    let n = cs.len();
    let mut k: usize = 0;
    while k < m
        invariant
            k <= m,
            n == cs@.len(),
            m == sep@.len(),
            i + m <= cs@.len(),
            forall|j: int| 0 <= j < k ==> cs@[i + j] == sep@[j],
        decreases m - k,
    {
        if cs[i + k] != sep[k] {
            assert(cs@.subrange(i as int, i + m)[k as int] != sep@[k as int]);
            return false;
        }
        k = k + 1;
    }
    assert(cs@.subrange(i as int, i + m) =~= sep@);
    true
}

/// Cuts `s` at each occurrence of `sep`, the way `s.split(sep)` does for a
/// non-empty `sep`.
pub fn split_str(s: &str, sep: &str) -> (r: Vec<String>)
    requires
        sep@.len() > 0,
    ensures
        views(r@) == split(s@, sep@),
{
    let cs = chars_of(s);
    let ps = chars_of(sep);
    let n = cs.len();
    let m = ps.len();
    let mut r: Vec<String> = Vec::new();
    let mut start: usize = 0;
    let mut i: usize = 0;
    while m <= n - i
        invariant
            start <= i <= n,
            cs@ == s@,
            ps@ == sep@,
            n == s@.len(),
            m == sep@.len(),
            m > 0,
            views(r@) + split_from(s@, sep@, start as int, i as int) == split(s@, sep@),
        decreases n - i,
    {
        if matches_at_exec(&cs, &ps, i) {
            let piece = String::from_str(s.substring_char(start, i));
            let ghost before = r@;
            r.push(piece);
            assert(views(r@) =~= views(before).push(piece@));
            i = i + m;
            start = i;
        } else {
            i = i + 1;
        }
    }
    let last = String::from_str(s.substring_char(start, n));
    let ghost before = r@;
    r.push(last);
    assert(views(r@) =~= views(before).push(last@));
    r
}

/// Appends the decimal numeral of `n` to `s`.
fn push_natural_decimal(s: &mut String, n: u64)
    ensures
        final(s)@ == old(s)@ + natural_decimal(n as nat),
    decreases n,
{
    if n >= 10 {
        push_natural_decimal(s, n / 10);
    }
    let d: u8 = (n % 10) as u8;
    let c = (d + 48) as char;
    assert(c == digit((n % 10) as nat));
    push_char(s, c);
    assert(s@ =~= old(s)@ + natural_decimal(n as nat));
}

/// The decimal numeral of `n`, as `n.to_string()` writes it.
pub fn decimal_string(n: i32) -> (r: String)
    ensures
        r@ == decimal(n as int),
{
    let mut s = String::new();
    if n < 0 {
        push_char(&mut s, '-');
        let m: i64 = n as i64;
        let a: u64 = (-m) as u64;
        push_natural_decimal(&mut s, a);
        assert(s@ =~= seq!['-'] + natural_decimal((-n) as nat));
    } else {
        push_natural_decimal(&mut s, n as u64);
        assert(s@ =~= natural_decimal(n as nat));
    }
    s
}

} // verus!
