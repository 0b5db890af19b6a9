//! Text as sequences of characters: trimming, splitting on a separator,
//! joining with `/`, and decimal numbers.

use vstd::prelude::*;

verus! {

/// The characters with the Unicode property `White_Space`.
pub open spec fn is_white(c: char) -> bool {
    let u = c as u32;
    ||| 0x9 <= u <= 0xd
    ||| u == 0x20
    ||| u == 0x85
    ||| u == 0xa0
    ||| u == 0x1680
    ||| 0x2000 <= u <= 0x200a
    ||| u == 0x2028
    ||| u == 0x2029
    ||| u == 0x202f
    ||| u == 0x205f
    ||| u == 0x3000
}

/// `s` without the white space at its front.
pub open spec fn trimmed_front(s: Seq<char>) -> Seq<char>
    decreases s.len(),
{
    if s.len() > 0 && is_white(s[0]) {
        trimmed_front(s.drop_first())
    } else {
        s
    }
}

/// `s` without the white space at its back.
pub open spec fn trimmed_back(s: Seq<char>) -> Seq<char>
    decreases s.len(),
{
    if s.len() > 0 && is_white(s.last()) {
        trimmed_back(s.drop_last())
    } else {
        s
    }
}

/// `s` without the white space at either end.
pub open spec fn trimmed(s: Seq<char>) -> Seq<char> {
    trimmed_back(trimmed_front(s))
}

/// The pieces of `s` between the occurrences of `sep`; always at least one.
pub open spec fn pieces(s: Seq<char>, sep: char) -> Seq<Seq<char>>
    decreases s.len(),
{
    if s.len() == 0 {
        seq![Seq::empty()]
    } else {
        let before = pieces(s.drop_last(), sep);
        if s.last() == sep {
            before.push(Seq::empty())
        } else {
            before.drop_last().push(before.last().push(s.last()))
        }
    }
}

/// The parts one after the other, with a `/` between each two.
pub open spec fn joined(parts: Seq<Seq<char>>) -> Seq<char>
    decreases parts.len(),
{
    if parts.len() == 0 {
        Seq::empty()
    } else if parts.len() == 1 {
        parts[0]
    } else {
        joined(parts.drop_last()) + seq!['/'] + parts.last()
    }
}

/// The decimal digit for a number below ten.
pub open spec fn digit(d: nat) -> char {
    (0x30 + d) as char
}

/// `n` written in decimal, without leading zeros.
pub open spec fn digits(n: nat) -> Seq<char>
    decreases n,
{
    if n < 10 {
        seq![digit(n)]
    } else {
        digits(n / 10).push(digit(n % 10))
    }
}

/// Whether `c` is white space.
pub fn is_white_space(c: char) -> (r: bool)
    ensures
        r == is_white(c),
{
    let u = c as u32;
    (0x9 <= u && u <= 0xd) || u == 0x20 || u == 0x85 || u == 0xa0 || u == 0x1680 || (0x2000 <= u
        && u <= 0x200a) || u == 0x2028 || u == 0x2029 || u == 0x202f || u == 0x205f || u == 0x3000
}

/// The characters of `s`.
pub fn characters(s: &str) -> (r: Vec<char>)
    ensures
        r@ == s@,
{
    let mut r: Vec<char> = Vec::new();
    for c in it: s.chars()
        invariant
            r@ == it.seq().take(it.index() as int),
            it.seq() == s@,
    {
        r.push(c);
    }
    r
}

/// `s` without the white space at either end.
pub fn trim(s: &str) -> (r: String)
    ensures
        r@ == trimmed(s@),
{
    let cs = characters(s);
    let n: usize = cs.len();
    let mut lo: usize = 0;
    assert(s@.skip(0) == s@);
    while lo < n && is_white_space(cs[lo])
        invariant
            cs@ == s@,
            n == s@.len(),
            lo <= n,
            trimmed_front(s@) == trimmed_front(s@.skip(lo as int)),
        decreases n - lo,
    {
        assert(s@.skip(lo as int).drop_first() == s@.skip(lo + 1));
        lo = lo + 1;
    }
    let mut hi: usize = n;
    assert(s@.skip(lo as int) == s@.subrange(lo as int, hi as int));
    while lo < hi && is_white_space(cs[hi - 1])
        invariant
            cs@ == s@,
            n == s@.len(),
            lo <= hi <= n,
            trimmed(s@) == trimmed_back(s@.subrange(lo as int, hi as int)),
        decreases hi - lo,
    {
        assert(s@.subrange(lo as int, hi as int).drop_last() == s@.subrange(lo as int, hi - 1));
        hi = hi - 1;
    }
    s.substring_char(lo, hi).to_owned()
}

/// The pieces of `s` between the occurrences of `sep`.
pub fn split(s: &str, sep: char) -> (r: Vec<String>)
    ensures
        r.deep_view() == pieces(s@, sep),
{
    let cs = characters(s);
    let n: usize = cs.len();
    let mut out: Vec<String> = Vec::new();
    let mut from: usize = 0;
    let mut i: usize = 0;
    assert(s@.take(0) == Seq::<char>::empty());
    assert(out.deep_view().push(s@.subrange(0, 0)) == seq![Seq::<char>::empty()]);
    while i < n
        invariant
            cs@ == s@,
            n == s@.len(),
            from <= i <= n,
            out.deep_view().push(s@.subrange(from as int, i as int)) == pieces(
                s@.take(i as int),
                sep,
            ),
        decreases n - i,
    {
        let ghost before = out.deep_view().push(s@.subrange(from as int, i as int));
        assert(s@.take(i + 1).drop_last() == s@.take(i as int));
        if cs[i] == sep {
            let piece = s.substring_char(from, i).to_owned();
            out.push(piece);
            from = i + 1;
            assert(out.deep_view() == before);
            assert(s@.subrange(i + 1, i + 1) == Seq::<char>::empty());
        } else {
            assert(before.drop_last() == out.deep_view());
            assert(s@.subrange(from as int, i as int).push(s@[i as int]) == s@.subrange(
                from as int,
                i + 1,
            ));
        }
        i = i + 1;
    }
    assert(s@.take(n as int) == s@);
    let ghost done = out.deep_view();
    let piece = s.substring_char(from, n).to_owned();
    out.push(piece);
    assert(out.deep_view() == done.push(s@.subrange(from as int, n as int)));
    out
}

/// The parts one after the other, with a `/` between each two.
pub fn join(parts: &Vec<String>) -> (r: String)
    ensures
        r@ == joined(parts.deep_view()),
{
    let mut r = String::new();
    let mut i: usize = 0;
    while i < parts.len()
        invariant
            i <= parts.len(),
            r@ == joined(parts.deep_view().take(i as int)),
        decreases parts.len() - i,
    {
        proof {
            reveal_strlit("/");
            assert("/"@ == seq!['/']);
            assert(parts.deep_view().take(i + 1).drop_last() == parts.deep_view().take(i as int));
        }
        if i > 0 {
            r.append("/");
        }
        r.append(parts[i].as_str());
        i = i + 1;
    }
    assert(parts.deep_view().take(i as int) == parts.deep_view());
    r
}

/// Whether `item` is one of `list`.
pub fn contains(list: &Vec<String>, item: &String) -> (r: bool)
    ensures
        r == list.deep_view().contains(item@),
{
    let mut i: usize = 0;
    while i < list.len()
        invariant
            i <= list.len(),
            forall|j: int| 0 <= j < i ==> list.deep_view()[j] != item@,
        decreases list.len() - i,
    {
        if list[i] == *item {
            assert(list.deep_view()[i as int] == item@);
            return true;
        }
        i = i + 1;
    }
    false
}

/// `n` written in decimal.
pub fn decimal(n: u64) -> (r: String)
    ensures
        r@ == digits(n as nat),
    decreases n,
{
    let mut r = if n < 10 {
        String::new()
    } else {
        decimal(n / 10)
    };
    let d = n % 10;
    proof {
        reveal_strlit("0");
        reveal_strlit("1");
        reveal_strlit("2");
        reveal_strlit("3");
        reveal_strlit("4");
        reveal_strlit("5");
        reveal_strlit("6");
        reveal_strlit("7");
        reveal_strlit("8");
        reveal_strlit("9");
    }
    let ghost before = r@;
    if d == 0 {
        r.append("0");
    } else if d == 1 {
        r.append("1");
    } else if d == 2 {
        r.append("2");
    } else if d == 3 {
        r.append("3");
    } else if d == 4 {
        r.append("4");
    } else if d == 5 {
        r.append("5");
    } else if d == 6 {
        r.append("6");
    } else if d == 7 {
        r.append("7");
    } else if d == 8 {
        r.append("8");
    } else {
        r.append("9");
    }
    assert(r@ == before.push(digit(d as nat)));
    r
}

/// Splitting gives at least one piece, and no piece holds the separator.
pub proof fn law_pieces_hold_no_separator(s: Seq<char>, sep: char)
    ensures
        pieces(s, sep).len() >= 1,
        forall|i: int| 0 <= i < pieces(s, sep).len() ==> !#[trigger] pieces(s, sep)[i].contains(sep),
    decreases s.len(),
{
    if s.len() > 0 {
        law_pieces_hold_no_separator(s.drop_last(), sep);
        let before = pieces(s.drop_last(), sep);
        assert forall|i: int| 0 <= i < pieces(s, sep).len() implies !#[trigger] pieces(
            s,
            sep,
        )[i].contains(sep) by {
            if s.last() != sep && i == before.len() - 1 {
                assert(!before[i].contains(sep));
                let piece = before.last().push(s.last());
                assert(pieces(s, sep)[i] == piece);
                if piece.contains(sep) {
                    let k = choose|k: int| 0 <= k < piece.len() && piece[k] == sep;
                    assert(before[i][k] == sep);
                }
            } else if s.last() == sep && i == before.len() {
            } else {
                assert(pieces(s, sep)[i] == before[i]);
            }
        }
    }
}

/// Joining the pieces of a text split at `/` gives the text back.
pub proof fn law_join_undoes_split(s: Seq<char>)
    ensures
        joined(pieces(s, '/')) == s,
    decreases s.len(),
{
    if s.len() > 0 {
        law_join_undoes_split(s.drop_last());
        law_pieces_hold_no_separator(s.drop_last(), '/');
        let before = pieces(s.drop_last(), '/');
        let after = pieces(s, '/');
        assert(s == s.drop_last().push(s.last()));
        if s.last() == '/' {
            assert(after.drop_last() == before);
            assert(joined(after) == joined(before) + seq!['/'] + Seq::<char>::empty());
        } else {
            assert(after.drop_last() == before.drop_last());
            if before.len() > 1 {
                assert(joined(after) == joined(before).push(s.last()));
            }
        }
    }
}

/// Splitting at a separator splits what stands before it and what stands after
/// it, each by itself.
pub proof fn law_split_at_a_separator(a: Seq<char>, sep: char, b: Seq<char>)
    ensures
        pieces(a + seq![sep] + b, sep) == pieces(a, sep) + pieces(b, sep),
    decreases b.len(),
{
    let s = a + seq![sep] + b;
    if b.len() == 0 {
        assert(s.drop_last() == a);
        assert(pieces(a, sep) + pieces(b, sep) == pieces(a, sep).push(Seq::empty()));
    } else {
        law_split_at_a_separator(a, sep, b.drop_last());
        law_pieces_hold_no_separator(b.drop_last(), sep);
        assert(s.drop_last() == a + seq![sep] + b.drop_last());
        let front = pieces(a, sep);
        let back = pieces(b.drop_last(), sep);
        assert((front + back).drop_last() == front + back.drop_last());
        assert(pieces(s, sep) == front + pieces(b, sep));
    }
}

/// Splitting past the last separator splits off what stands after it.
proof fn lemma_pieces_of_two(a: Seq<char>, b: Seq<char>)
    requires
        !b.contains('/'),
    ensures
        pieces(a + seq!['/'] + b, '/') == pieces(a, '/').push(b),
{
    law_split_at_a_separator(a, '/', b);
    law_split_without_separator(b, '/');
}

/// A text without the separator is its own only piece.
pub proof fn law_split_without_separator(s: Seq<char>, sep: char)
    requires
        !s.contains(sep),
    ensures
        pieces(s, sep) == seq![s],
    decreases s.len(),
{
    if s.len() > 0 {
        assert(s[s.len() - 1] != sep);
        assert(!s.drop_last().contains(sep)) by {
            if s.drop_last().contains(sep) {
                let k = choose|k: int| 0 <= k < s.len() - 1 && s.drop_last()[k] == sep;
                assert(s[k] == sep);
            }
        }
        law_split_without_separator(s.drop_last(), sep);
        assert(s.drop_last().push(s.last()) == s);
    } else {
        assert(s == Seq::<char>::empty());
    }
}

/// Splitting a joined text at `/` gives the parts back.
pub proof fn law_split_undoes_join(parts: Seq<Seq<char>>)
    requires
        parts.len() >= 1,
        forall|i: int| 0 <= i < parts.len() ==> !#[trigger] parts[i].contains('/'),
    ensures
        pieces(joined(parts), '/') == parts,
    decreases parts.len(),
{
    if parts.len() == 1 {
        law_split_without_separator(parts[0], '/');
        assert(seq![parts[0]] == parts);
    } else {
        assert forall|i: int| 0 <= i < parts.len() - 1 implies !#[trigger] parts.drop_last()[i].contains(
            '/',
        ) by {
            assert(!parts[i].contains('/'));
        }
        law_split_undoes_join(parts.drop_last());
        lemma_pieces_of_two(joined(parts.drop_last()), parts.last());
        assert(parts.drop_last().push(parts.last()) == parts);
    }
}

proof fn lemma_trimmed_front(s: Seq<char>)
    ensures
        trimmed_front(s).len() > 0 ==> !is_white(trimmed_front(s)[0]),
        forall|c: char| #[trigger] trimmed_front(s).contains(c) ==> s.contains(c),
    decreases s.len(),
{
    if s.len() > 0 && is_white(s[0]) {
        lemma_trimmed_front(s.drop_first());
        assert forall|c: char| #[trigger] trimmed_front(s).contains(c) implies s.contains(c) by {
            assert(s.drop_first().contains(c));
            let k = choose|k: int| 0 <= k < s.len() - 1 && s.drop_first()[k] == c;
            assert(s[k + 1] == c);
        }
    }
}

proof fn lemma_trimmed_back(s: Seq<char>)
    ensures
        trimmed_back(s).len() > 0 ==> !is_white(trimmed_back(s).last()) && trimmed_back(s)[0]
            == s[0],
        s.len() > 0 && !is_white(s[0]) ==> trimmed_back(s).len() > 0,
        forall|c: char| #[trigger] trimmed_back(s).contains(c) ==> s.contains(c),
    decreases s.len(),
{
    if s.len() > 0 && is_white(s.last()) {
        lemma_trimmed_back(s.drop_last());
        assert forall|c: char| #[trigger] trimmed_back(s).contains(c) implies s.contains(c) by {
            assert(s.drop_last().contains(c));
            let k = choose|k: int| 0 <= k < s.len() - 1 && s.drop_last()[k] == c;
            assert(s[k] == c);
        }
    }
}

/// A trimmed text begins and ends with no white space, holds nothing that was
/// not there before, and stays as it is when trimmed again.
pub proof fn law_trimmed(s: Seq<char>)
    ensures
        trimmed(s).len() > 0 ==> !is_white(trimmed(s)[0]) && !is_white(trimmed(s).last()),
        forall|c: char| #[trigger] trimmed(s).contains(c) ==> s.contains(c),
        trimmed(trimmed(s)) == trimmed(s),
{
    lemma_trimmed_front(s);
    lemma_trimmed_back(trimmed_front(s));
    assert forall|c: char| #[trigger] trimmed(s).contains(c) implies s.contains(c) by {
        assert(trimmed_front(s).contains(c));
    }
}

/// Joining two lists of parts one after the other puts one `/` between what
/// each joins to; a part alone stays as it is, and no parts join to nothing.
pub proof fn law_join_of_two_lists(a: Seq<Seq<char>>, b: Seq<Seq<char>>, part: Seq<char>)
    requires
        a.len() > 0,
        b.len() > 0,
    ensures
        joined(a + b) == joined(a) + seq!['/'] + joined(b),
        joined(seq![part]) == part,
        joined(Seq::empty()) == Seq::<char>::empty(),
    decreases b.len(),
{
    assert((a + b).drop_last() == a + b.drop_last());
    if b.len() == 1 {
        assert(a + b.drop_last() == a);
    } else {
        law_join_of_two_lists(a, b.drop_last(), part);
        assert(joined(a + b) == joined(a) + seq!['/'] + joined(b));
    }
}

/// What stands where trimming at the front leaves off.
proof fn lemma_front_cut(s: Seq<char>) -> (at: int)
    ensures
        0 <= at <= s.len(),
        trimmed_front(s) == s.skip(at),
        forall|i: int| 0 <= i < at ==> is_white(#[trigger] s[i]),
        at < s.len() ==> !is_white(s[at]),
    decreases s.len(),
{
    if s.len() > 0 && is_white(s[0]) {
        let at = lemma_front_cut(s.drop_first()) + 1;
        assert(s.drop_first().skip(at - 1) == s.skip(at));
        assert forall|i: int| 0 <= i < at implies is_white(#[trigger] s[i]) by {
            if i > 0 {
                assert(s.drop_first()[i - 1] == s[i]);
            }
        }
        at
    } else {
        assert(s.skip(0) == s);
        0
    }
}

/// What stands where trimming at the back leaves off.
proof fn lemma_back_cut(s: Seq<char>) -> (at: int)
    ensures
        0 <= at <= s.len(),
        trimmed_back(s) == s.take(at),
        forall|i: int| at <= i < s.len() ==> is_white(#[trigger] s[i]),
        at > 0 ==> !is_white(s[at - 1]),
    decreases s.len(),
{
    if s.len() > 0 && is_white(s.last()) {
        let at = lemma_back_cut(s.drop_last());
        assert(s.drop_last().take(at) == s.take(at));
        assert forall|i: int| at <= i < s.len() implies is_white(#[trigger] s[i]) by {
            if i < s.len() - 1 {
                assert(s.drop_last()[i] == s[i]);
            }
        }
        at
    } else {
        assert(s.take(s.len() as int) == s);
        s.len() as int
    }
}

/// Trimming cuts off white space and nothing else: what it leaves is one
/// stretch of the text, with only white space before and after it, and none at
/// either end of it.
pub proof fn law_trimming_cuts_only_white_space(s: Seq<char>) -> (at: (int, int))
    ensures
        0 <= at.0 <= at.1 <= s.len(),
        trimmed(s) == s.subrange(at.0, at.1),
        forall|i: int| 0 <= i < at.0 ==> is_white(#[trigger] s[i]),
        forall|i: int| at.1 <= i < s.len() ==> is_white(#[trigger] s[i]),
        at.0 < at.1 ==> !is_white(s[at.0]) && !is_white(s[at.1 - 1]),
{
    let lo = lemma_front_cut(s);
    let rest = s.skip(lo);
    let n = lemma_back_cut(rest);
    assert(rest.take(n) == s.subrange(lo, lo + n));
    assert forall|i: int| lo + n <= i < s.len() implies is_white(#[trigger] s[i]) by {
        assert(rest[i - lo] == s[i]);
    }
    if n > 0 {
        assert(rest[n - 1] == s[lo + n - 1]);
    }
    (lo, lo + n)
}

/// Decimal notation: a number below ten is its digit, counted from `0` on, and
/// putting a digit behind a number other than zero multiplies it by ten and
/// adds the digit.
pub proof fn law_decimal_notation(n: nat, d: nat)
    requires
        d < 10,
    ensures
        digits(d).len() == 1,
        digits(d)[0] as int == '0' as int + d,
        n > 0 ==> {
            &&& digits(10 * n + d).len() == digits(n).len() + 1
            &&& digits(10 * n + d).drop_last() == digits(n)
            &&& digits(10 * n + d).last() as int == '0' as int + d
        },
{
    if n > 0 {
        assert((10 * n + d) / 10 == n);
        assert((10 * n + d) % 10 == d);
        assert(digits(n).push(digit(d)).drop_last() == digits(n));
    }
}

} // verus!
