//! Group paths such as `prod/db`: how they are normalised, and which headers
//! a group needs in the sidebar.

use vstd::prelude::*;
use crate::servers::Server;
use crate::text;

verus! {

/// The parts trimmed, without those that are then empty.
pub open spec fn cleaned(parts: Seq<Seq<char>>) -> Seq<Seq<char>>
    decreases parts.len(),
{
    if parts.len() == 0 {
        Seq::empty()
    } else {
        let before = cleaned(parts.drop_last());
        let last = text::trimmed(parts.last());
        if last.len() == 0 {
            before
        } else {
            before.push(last)
        }
    }
}

/// The segments of a group as it was typed.
pub open spec fn segments(group: Seq<char>) -> Seq<Seq<char>> {
    cleaned(text::pieces(group, '/'))
}

/// The normalised path of a group as it was typed.
pub open spec fn group_path(group: Seq<char>) -> Seq<char> {
    if segments(group).len() == 0 {
        "Ungrouped"@
    } else {
        text::joined(segments(group))
    }
}

/// The path of the header at depth `depth` above a group with these parts.
pub open spec fn header_path(parts: Seq<Seq<char>>, depth: int) -> Seq<char> {
    text::joined(parts.take(depth + 1))
}

/// Of the headers at depths below `n`, those whose path is not in `drawn`:
/// each with its label and its depth, from the top down.
pub open spec fn missing_headers(
    parts: Seq<Seq<char>>,
    drawn: Seq<Seq<char>>,
    n: int,
) -> Seq<(Seq<char>, usize)>
    decreases n,
{
    if n <= 0 {
        Seq::empty()
    } else {
        let above = missing_headers(parts, drawn, n - 1);
        if drawn.contains(header_path(parts, n - 1)) {
            above
        } else {
            above.push((parts[n - 1], (n - 1) as usize))
        }
    }
}

/// The paths of those headers.
pub open spec fn missing_paths(
    parts: Seq<Seq<char>>,
    drawn: Seq<Seq<char>>,
    n: int,
) -> Seq<Seq<char>>
    decreases n,
{
    if n <= 0 {
        Seq::empty()
    } else {
        let above = missing_paths(parts, drawn, n - 1);
        if drawn.contains(header_path(parts, n - 1)) {
            above
        } else {
            above.push(header_path(parts, n - 1))
        }
    }
}

/// Normalised group path of a server: each segment is trimmed and empty ones
/// are dropped; with none left the group is `Ungrouped`.
pub fn group_name(s: &Server) -> (r: String)
    ensures
        r@ == group_path(s@.group),
{
    let raw = text::split(s.group.as_str(), '/');
    let mut parts: Vec<String> = Vec::new();
    let mut i: usize = 0;
    while i < raw.len()
        invariant
            i <= raw.len(),
            parts.deep_view() == cleaned(raw.deep_view().take(i as int)),
        decreases raw.len() - i,
    {
        let t = text::trim(raw[i].as_str());
        let ghost before = parts.deep_view();
        assert(raw.deep_view().take(i + 1).drop_last() == raw.deep_view().take(i as int));
        if !t.as_str().is_empty() {
            parts.push(t);
            assert(parts.deep_view() == before.push(t@));
        }
        i = i + 1;
    }
    assert(raw.deep_view().take(i as int) == raw.deep_view());
    if parts.len() == 0 {
        "Ungrouped".to_owned()
    } else {
        text::join(&parts)
    }
}

/// Headers (label, depth) to draw for group path `g`, given the paths drawn
/// already. The new paths are added to `drawn`.
pub fn headers_to_draw(g: &str, drawn: &mut Vec<String>) -> (out: Vec<(String, usize)>)
    ensures
        out.deep_view() == missing_headers(
            text::pieces(g@, '/'),
            old(drawn).deep_view(),
            text::pieces(g@, '/').len() as int,
        ),
        final(drawn).deep_view() == old(drawn).deep_view() + missing_paths(
            text::pieces(g@, '/'),
            old(drawn).deep_view(),
            text::pieces(g@, '/').len() as int,
        ),
{
    let parts = text::split(g, '/');
    let ghost p = parts.deep_view();
    let ghost d0 = drawn.deep_view();
    let mut out: Vec<(String, usize)> = Vec::new();
    let mut path = String::new();
    let mut depth: usize = 0;
    while depth < parts.len()
        invariant
            depth <= parts.len(),
            p == parts.deep_view(),
            path@ == text::joined(p.take(depth as int)),
            out.deep_view() == missing_headers(p, d0, depth as int),
            drawn.deep_view() == d0 + missing_paths(p, d0, depth as int),
        decreases parts.len() - depth,
    {
        proof {
            reveal_strlit("/");
            assert("/"@ == seq!['/']);
            assert(p.take(depth + 1).drop_last() == p.take(depth as int));
        }
        if depth > 0 {
            path.append("/");
        }
        path.append(parts[depth].as_str());
        assert(path@ == header_path(p, depth as int));
        proof {
            lemma_missing_paths_shorter(p, d0, depth as int, depth as int);
            assert(drawn.deep_view().contains(path@) == d0.contains(path@)) by {
                if d0.contains(path@) {
                    let k = choose|k: int| 0 <= k < d0.len() && d0[k] == path@;
                    assert(drawn.deep_view()[k] == path@);
                }
            }
        }
        if !text::contains(drawn, &path) {
            let ghost o = out.deep_view();
            let ghost d = drawn.deep_view();
            let label = parts[depth].clone();
            out.push((label, depth));
            assert(out.deep_view() == o.push((p[depth as int], depth)));
            drawn.push(path.clone());
            assert(drawn.deep_view() == d.push(path@));
        }
        depth = depth + 1;
    }
    out
}

/// A header path is longer the deeper it lies.
proof fn lemma_header_path_grows(p: Seq<Seq<char>>, i: int, j: int)
    requires
        0 <= i < j < p.len(),
    ensures
        header_path(p, i).len() < header_path(p, j).len(),
    decreases j,
{
    assert(p.take(j + 1).drop_last() == p.take(j));
    if i < j - 1 {
        lemma_header_path_grows(p, i, j - 1);
    }
}

/// The missing paths above depth `n` are not the header path at depth `at`.
proof fn lemma_missing_paths_shorter(p: Seq<Seq<char>>, drawn: Seq<Seq<char>>, n: int, at: int)
    requires
        0 <= n <= at < p.len(),
    ensures
        !missing_paths(p, drawn, n).contains(header_path(p, at)),
    decreases n,
{
    if n > 0 {
        lemma_missing_paths_shorter(p, drawn, n - 1, at);
        lemma_header_path_grows(p, n - 1, at);
    }
}

/// What cleaning leaves is trimmed, not empty, and free of what its parts were
/// free of.
proof fn lemma_cleaned(parts: Seq<Seq<char>>)
    requires
        forall|i: int| 0 <= i < parts.len() ==> !#[trigger] parts[i].contains('/'),
    ensures
        forall|i: int|
            0 <= i < cleaned(parts).len() ==> {
                &&& (#[trigger] cleaned(parts)[i]).len() > 0
                &&& !cleaned(parts)[i].contains('/')
                &&& text::trimmed(cleaned(parts)[i]) == cleaned(parts)[i]
            },
    decreases parts.len(),
{
    if parts.len() > 0 {
        assert forall|i: int| 0 <= i < parts.len() - 1 implies !#[trigger] parts.drop_last()[i].contains(
            '/',
        ) by {
            assert(!parts[i].contains('/'));
        }
        lemma_cleaned(parts.drop_last());
        text::law_trimmed(parts.last());
        assert(!parts[parts.len() - 1].contains('/'));
        assert(!text::trimmed(parts.last()).contains('/'));
        let before = cleaned(parts.drop_last());
        assert forall|i: int| 0 <= i < cleaned(parts).len() implies {
            &&& (#[trigger] cleaned(parts)[i]).len() > 0
            &&& !cleaned(parts)[i].contains('/')
            &&& text::trimmed(cleaned(parts)[i]) == cleaned(parts)[i]
        } by {
            if i < before.len() {
                assert(cleaned(parts)[i] == before[i]);
            }
        }
    }
}

/// Cleaning changes nothing where every part is trimmed and not empty.
proof fn lemma_cleaned_fixpoint(parts: Seq<Seq<char>>)
    requires
        forall|i: int|
            0 <= i < parts.len() ==> (#[trigger] parts[i]).len() > 0 && text::trimmed(parts[i])
                == parts[i],
    ensures
        cleaned(parts) == parts,
    decreases parts.len(),
{
    if parts.len() > 0 {
        assert(parts[parts.len() - 1].len() > 0);
        assert forall|i: int| 0 <= i < parts.len() - 1 implies (
        #[trigger] parts.drop_last()[i]).len() > 0 && text::trimmed(parts.drop_last()[i])
            == parts.drop_last()[i] by {
            assert(parts[i].len() > 0);
        }
        lemma_cleaned_fixpoint(parts.drop_last());
        assert(parts.drop_last().push(parts.last()) == parts);
    }
}

/// The segments of a normalised group path are those that it was made of, or
/// the one segment `Ungrouped`.
pub proof fn law_path_has_its_segments(group: Seq<char>)
    ensures
        text::pieces(group_path(group), '/') == (if segments(group).len() == 0 {
            seq!["Ungrouped"@]
        } else {
            segments(group)
        }),
{
    let raw = text::pieces(group, '/');
    text::law_pieces_hold_no_separator(group, '/');
    lemma_cleaned(raw);
    if segments(group).len() == 0 {
        reveal_strlit("Ungrouped");
        text::law_split_without_separator("Ungrouped"@, '/');
    } else {
        text::law_split_undoes_join(segments(group));
    }
}

/// Normalising a group path that is normalised already changes nothing.
pub proof fn law_group_path_is_normal(group: Seq<char>)
    ensures
        group_path(group_path(group)) == group_path(group),
{
    let raw = text::pieces(group, '/');
    text::law_pieces_hold_no_separator(group, '/');
    lemma_cleaned(raw);
    law_path_has_its_segments(group);
    if segments(group).len() == 0 {
        reveal_strlit("Ungrouped");
        let u = "Ungrouped"@;
        assert(text::trimmed(u) == u);
        lemma_cleaned_fixpoint(seq![u]);
    } else {
        lemma_cleaned_fixpoint(segments(group));
    }
}

/// Every segment of a normalised path is trimmed, not empty, and without `/`.
pub proof fn law_segments_are_clean(group: Seq<char>, i: int)
    requires
        0 <= i < segments(group).len(),
    ensures
        segments(group)[i].len() > 0,
        text::trimmed(segments(group)[i]) == segments(group)[i],
        !segments(group)[i].contains('/'),
{
    text::law_pieces_hold_no_separator(group, '/');
    lemma_cleaned(text::pieces(group, '/'));
}

/// The missing paths: those of the header paths that were not drawn, each once.
proof fn lemma_missing_paths(p: Seq<Seq<char>>, drawn: Seq<Seq<char>>, n: int)
    requires
        0 <= n <= p.len(),
    ensures
        missing_paths(p, drawn, n).len() == missing_headers(p, drawn, n).len(),
        missing_paths(p, drawn, n).no_duplicates(),
        forall|x: Seq<char>| #[trigger]
            missing_paths(p, drawn, n).contains(x) <==> !drawn.contains(x) && exists|d: int|
                0 <= d < n && x == #[trigger] header_path(p, d),
    decreases n,
{
    if n > 0 {
        lemma_missing_paths(p, drawn, n - 1);
        lemma_missing_paths_shorter(p, drawn, n - 1, n - 1);
        let above = missing_paths(p, drawn, n - 1);
        let all = missing_paths(p, drawn, n);
        let own = header_path(p, n - 1);
        assert forall|x: Seq<char>| #[trigger] all.contains(x) <==> !drawn.contains(x) && exists|
            d: int,
        |
            0 <= d < n && x == #[trigger] header_path(p, d) by {
            if drawn.contains(own) {
                assert(all == above);
            } else {
                assert(all == above.push(own));
                assert(all[above.len() as int] == own);
                if above.contains(x) {
                    let k = choose|k: int| 0 <= k < above.len() && above[k] == x;
                    assert(all[k] == x);
                }
                if all.contains(x) && x != own {
                    let k = choose|k: int| 0 <= k < all.len() && all[k] == x;
                    assert(above[k] == x);
                }
            }
        }
    }
}

/// Drawing the headers of a group draws each of its header paths that was not
/// drawn before, exactly once, and no other path.
pub proof fn law_headers_drawn_once(g: Seq<char>, drawn: Seq<Seq<char>>)
    requires
        drawn.no_duplicates(),
    ensures
        ({
            let parts = text::pieces(g, '/');
            let n = parts.len() as int;
            let after = drawn + missing_paths(parts, drawn, n);
            &&& after.no_duplicates()
            &&& missing_headers(parts, drawn, n).len() == after.len() - drawn.len()
            &&& forall|x: Seq<char>| #[trigger]
                after.contains(x) <==> drawn.contains(x) || exists|d: int|
                    0 <= d < n && x == #[trigger] header_path(parts, d)
        }),
{
    let parts = text::pieces(g, '/');
    let n = parts.len() as int;
    let new = missing_paths(parts, drawn, n);
    let after = drawn + new;
    lemma_missing_paths(parts, drawn, n);
    assert forall|x: Seq<char>| #[trigger] after.contains(x) <==> drawn.contains(x) || exists|
        d: int,
    |
        0 <= d < n && x == #[trigger] header_path(parts, d) by {
        lemma_contains_concat(drawn, new, x);
    }
    assert forall|i: int, j: int|
        0 <= i < after.len() && 0 <= j < after.len() && i != j implies after[i] != after[j] by {
        if i < drawn.len() && j >= drawn.len() {
            assert(new.contains(new[j - drawn.len()]));
        }
        if j < drawn.len() && i >= drawn.len() {
            assert(new.contains(new[i - drawn.len()]));
        }
    }
}

/// Membership in a concatenation.
pub(crate) proof fn lemma_contains_concat(a: Seq<Seq<char>>, b: Seq<Seq<char>>, x: Seq<char>)
    ensures
        (a + b).contains(x) <==> a.contains(x) || b.contains(x),
{
    if a.contains(x) {
        let k = choose|k: int| 0 <= k < a.len() && a[k] == x;
        assert((a + b)[k] == x);
    }
    if b.contains(x) {
        let k = choose|k: int| 0 <= k < b.len() && b[k] == x;
        assert((a + b)[a.len() + k] == x);
    }
    if (a + b).contains(x) {
        let k = choose|k: int| 0 <= k < (a + b).len() && (a + b)[k] == x;
        if k < a.len() {
            assert(a[k] == x);
        } else {
            assert(b[k - a.len()] == x);
        }
    }
}

/// Where all header paths of a group are drawn, it needs no header.
proof fn lemma_nothing_missing(p: Seq<Seq<char>>, drawn: Seq<Seq<char>>, n: int)
    requires
        0 <= n <= p.len(),
        forall|d: int| 0 <= d < n ==> drawn.contains(#[trigger] header_path(p, d)),
    ensures
        missing_headers(p, drawn, n).len() == 0,
        missing_paths(p, drawn, n).len() == 0,
    decreases n,
{
    if n > 0 {
        lemma_nothing_missing(p, drawn, n - 1);
    }
}

/// The path of a header splits into the segments down to it.
pub(crate) proof fn lemma_header_path_splits(g: Seq<char>, d: int)
    requires
        0 <= d < text::pieces(g, '/').len(),
    ensures
        text::pieces(header_path(text::pieces(g, '/'), d), '/') == text::pieces(g, '/').take(d + 1),
{
    let parts = text::pieces(g, '/');
    text::law_pieces_hold_no_separator(g, '/');
    let front = parts.take(d + 1);
    assert forall|i: int| 0 <= i < front.len() implies !#[trigger] front[i].contains('/') by {
        assert(!parts[i].contains('/'));
    }
    text::law_split_undoes_join(front);
}

/// Once the headers of a group are drawn, neither the group nor any group
/// around it needs a header: drawing the headers of the group whose path is
/// that of the header at depth `d` draws nothing. The deepest such group is
/// the group itself.
pub proof fn law_headers_not_redrawn(g: Seq<char>, drawn: Seq<Seq<char>>, d: int)
    requires
        0 <= d < text::pieces(g, '/').len(),
    ensures
        ({
            let parts = text::pieces(g, '/');
            let n = parts.len() as int;
            let after = drawn + missing_paths(parts, drawn, n);
            let around = header_path(parts, d);
            let its_parts = text::pieces(around, '/');
            &&& missing_headers(its_parts, after, its_parts.len() as int) == Seq::<
                (Seq<char>, usize),
            >::empty()
            &&& missing_paths(its_parts, after, its_parts.len() as int) == Seq::<
                Seq<char>,
            >::empty()
            &&& d == n - 1 ==> around == g
        }),
{
    let parts = text::pieces(g, '/');
    let n = parts.len() as int;
    let new = missing_paths(parts, drawn, n);
    let after = drawn + new;
    let its_parts = text::pieces(header_path(parts, d), '/');
    lemma_missing_paths(parts, drawn, n);
    lemma_header_path_splits(g, d);
    assert forall|e: int| 0 <= e < its_parts.len() implies after.contains(
        #[trigger] header_path(its_parts, e),
    ) by {
        assert(its_parts.take(e + 1) == parts.take(e + 1));
        let x = header_path(parts, e);
        lemma_contains_concat(drawn, new, x);
        assert(new.contains(x) <==> !drawn.contains(x));
    }
    lemma_nothing_missing(its_parts, after, its_parts.len() as int);
    if d == n - 1 {
        assert(parts.take(n) == parts);
        text::law_join_undoes_split(g);
    }
}

/// Cleaning two lists of parts one after the other cleans each by itself.
proof fn lemma_cleaned_concat(a: Seq<Seq<char>>, b: Seq<Seq<char>>)
    ensures
        cleaned(a + b) == cleaned(a) + cleaned(b),
    decreases b.len(),
{
    if b.len() == 0 {
        assert(a + b == a);
        assert(cleaned(a) + cleaned(b) == cleaned(a));
    } else {
        lemma_cleaned_concat(a, b.drop_last());
        assert((a + b).drop_last() == a + b.drop_last());
        assert(cleaned(a + b) == cleaned(a) + cleaned(b));
    }
}

/// A `/` in a group separates: the segments are those of what stands before it,
/// then those of what stands after it.
pub proof fn law_slash_separates_segments(a: Seq<char>, b: Seq<char>)
    ensures
        segments(a + seq!['/'] + b) == segments(a) + segments(b),
{
    text::law_split_at_a_separator(a, '/', b);
    lemma_cleaned_concat(text::pieces(a, '/'), text::pieces(b, '/'));
}

/// A group without `/` is one segment, trimmed, or none where nothing is left
/// of it.
pub proof fn law_group_without_slash(group: Seq<char>)
    requires
        !group.contains('/'),
    ensures
        text::trimmed(group).len() > 0 ==> segments(group) == seq![text::trimmed(group)]
            && group_path(group) == text::trimmed(group),
        text::trimmed(group).len() == 0 ==> segments(group) == Seq::<Seq<char>>::empty()
            && group_path(group) == "Ungrouped"@,
{
    text::law_split_without_separator(group, '/');
    let parts = seq![group];
    assert(parts.drop_last() == Seq::<Seq<char>>::empty());
    assert(cleaned(parts.drop_last()) == Seq::<Seq<char>>::empty());
    assert(parts.last() == group);
    if text::trimmed(group).len() > 0 {
        assert(segments(group) == seq![text::trimmed(group)]);
    }
}

/// The path of the outermost header is the first segment, and each further one
/// puts a `/` and its own segment behind the path above it.
pub proof fn law_header_path_grows_by_its_segment(parts: Seq<Seq<char>>, d: int)
    requires
        0 <= d < parts.len(),
    ensures
        d == 0 ==> header_path(parts, d) == parts[0],
        d > 0 ==> header_path(parts, d) == header_path(parts, d - 1) + seq!['/'] + parts[d],
{
    assert(parts.take(d + 1).drop_last() == parts.take(d));
}

/// What is known of the missing headers at depths below `n`.
pub(crate) proof fn lemma_missing_headers(parts: Seq<Seq<char>>, drawn: Seq<Seq<char>>, n: int)
    requires
        0 <= n <= parts.len() <= usize::MAX,
    ensures
        ({
            let out = missing_headers(parts, drawn, n);
            let new = missing_paths(parts, drawn, n);
            &&& new.len() == out.len()
            &&& forall|k: int|
                0 <= k < out.len() ==> {
                    let row = #[trigger] out[k];
                    &&& row.1 < n
                    &&& row.0 == parts[row.1 as int]
                    &&& new[k] == text::joined(parts.take(row.1 + 1))
                    &&& !drawn.contains(new[k])
                }
            &&& forall|j: int, k: int|
                0 <= j < k < out.len() ==> (#[trigger] out[j]).1 < (#[trigger] out[k]).1
            &&& forall|d: int|
                0 <= d < n && !drawn.contains(#[trigger] header_path(parts, d)) ==> exists|k: int|
                    0 <= k < out.len() && (#[trigger] out[k]).1 == d
        }),
    decreases n,
{
    if n > 0 {
        lemma_missing_headers(parts, drawn, n - 1);
        let above = missing_headers(parts, drawn, n - 1);
        let out = missing_headers(parts, drawn, n);
        let new = missing_paths(parts, drawn, n);
        assert forall|k: int| 0 <= k < out.len() implies {
            let row = #[trigger] out[k];
            &&& row.1 < n
            &&& row.0 == parts[row.1 as int]
            &&& new[k] == text::joined(parts.take(row.1 + 1))
            &&& !drawn.contains(new[k])
        } by {
            if k < above.len() {
                assert(out[k] == above[k]);
            }
        }
        assert forall|j: int, k: int| 0 <= j < k < out.len() implies (#[trigger] out[j]).1 < (
        #[trigger] out[k]).1 by {
            assert(out[j] == above[j]);
            if k < above.len() {
                assert(out[k] == above[k]);
            }
        }
        assert forall|d: int|
            0 <= d < n && !drawn.contains(#[trigger] header_path(parts, d)) implies exists|k: int|
            0 <= k < out.len() && (#[trigger] out[k]).1 == d by {
            if d < n - 1 {
                let k = choose|k: int| 0 <= k < above.len() && (#[trigger] above[k]).1 == d;
                assert(out[k] == above[k]);
            } else {
                assert(out[above.len() as int].1 == d);
            }
        }
    }
}

/// The headers to draw for a group: from the outermost inwards, one for each
/// depth at which the segments down to there, joined, are not among the paths
/// drawn. Each carries the whole segment at its depth, and that path is what is
/// recorded for it.
pub proof fn law_headers_carry_their_segments(g: Seq<char>, drawn: Seq<Seq<char>>)
    requires
        text::pieces(g, '/').len() <= usize::MAX,
    ensures
        ({
            let parts = text::pieces(g, '/');
            let n = parts.len() as int;
            let out = missing_headers(parts, drawn, n);
            let new = missing_paths(parts, drawn, n);
            &&& new.len() == out.len()
            &&& forall|k: int|
                0 <= k < out.len() ==> {
                    let row = #[trigger] out[k];
                    &&& row.1 < n
                    &&& row.0 == parts[row.1 as int]
                    &&& new[k] == text::joined(parts.take(row.1 + 1))
                    &&& !drawn.contains(new[k])
                }
            &&& forall|j: int, k: int|
                0 <= j < k < out.len() ==> (#[trigger] out[j]).1 < (#[trigger] out[k]).1
            &&& forall|d: int|
                #![trigger parts[d]]
                0 <= d < n && !drawn.contains(text::joined(parts.take(d + 1))) ==> exists|k: int|
                    0 <= k < out.len() && (#[trigger] out[k]).1 == d
        }),
{
    let parts = text::pieces(g, '/');
    let n = parts.len() as int;
    let out = missing_headers(parts, drawn, n);
    lemma_missing_headers(parts, drawn, n);
    assert forall|d: int|
        #![trigger parts[d]]
        0 <= d < n && !drawn.contains(text::joined(parts.take(d + 1))) implies exists|k: int|
        0 <= k < out.len() && (#[trigger] out[k]).1 == d by {
        assert(!drawn.contains(header_path(parts, d)));
    }
}

} // verus!
