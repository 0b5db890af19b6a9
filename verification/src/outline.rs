//! The sidebar as an indented outline: when a reader finds every server under
//! its own group.

use vstd::prelude::*;
use crate::groups;
use crate::servers::ServerView;
use crate::sidebar;
use crate::sidebar::RowView;
use crate::text;

verus! {

/// The group that a reader of these rows is in: a header takes the place of
/// every header above it that lies as deep or deeper.
pub open spec fn reading(rows: Seq<RowView>) -> Seq<Seq<char>>
    decreases rows.len(),
{
    if rows.len() == 0 {
        Seq::empty()
    } else {
        let before = reading(rows.drop_last());
        match rows.last() {
            RowView::Header { label, depth } => upto(before, depth as int).push(label),
            RowView::Entry { .. } => before,
        }
    }
}

/// The first `n` of `s`, or all where there are fewer.
pub open spec fn upto(s: Seq<Seq<char>>, n: int) -> Seq<Seq<char>> {
    if n < s.len() {
        s.take(n)
    } else {
        s
    }
}

/// Whether `s` starts with `front`.
pub open spec fn starts_with(s: Seq<Seq<char>>, front: Seq<Seq<char>>) -> bool {
    front.len() <= s.len() && s.take(front.len() as int) == front
}

/// How many of the headers of a group, from depth `d` on, are drawn before the
/// first that is missing; counted from the top.
pub open spec fn known_depth(parts: Seq<Seq<char>>, drawn: Seq<Seq<char>>, d: int) -> int
    decreases parts.len() - d,
{
    if d < parts.len() && drawn.contains(groups::header_path(parts, d)) {
        known_depth(parts, drawn, d + 1)
    } else {
        d
    }
}

/// The segments of group `k` of `order`.
pub open spec fn parts_of(order: Seq<Seq<char>>, k: int) -> Seq<Seq<char>> {
    text::pieces(order[k], '/')
}

/// Whether group `k` goes on where the outline stands: what is drawn of its
/// headers is what a reader of the rows above it is in.
pub open spec fn in_place(servers: Seq<ServerView>, order: Seq<Seq<char>>, k: int) -> bool {
    let parts = parts_of(order, k);
    let known = known_depth(parts, sidebar::drawn_paths(order, k), 0);
    starts_with(reading(sidebar::rows_upto(servers, order, k)), parts.take(known))
}

/// Whether a reader finds the server in row `j` under its own group.
pub open spec fn read_under_its_group(servers: Seq<ServerView>, j: int) -> bool {
    let own = sidebar::server_groups(servers)[sidebar::sidebar(servers)[j]->index as int];
    starts_with(reading(sidebar::sidebar(servers).take(j)), text::pieces(own, '/'))
}

/// Whether groups with a common parent stand together: a group between two
/// that start with the same segments starts with them too.
pub open spec fn stand_together(order: Seq<Seq<char>>) -> bool {
    forall|a: int, b: int, c: int, front: Seq<Seq<char>>|
        #![trigger starts_with(parts_of(order, a), front), starts_with(parts_of(order, b), front), starts_with(parts_of(order, c), front)]
        0 <= a < b < c < order.len() && starts_with(parts_of(order, a), front) && starts_with(
            parts_of(order, c),
            front,
        ) ==> starts_with(parts_of(order, b), front)
}

/// Entries do not change what a reader is in.
proof fn lemma_reading_past_entries(rows: Seq<RowView>, entries: Seq<RowView>)
    requires
        forall|j: int| 0 <= j < entries.len() ==> (#[trigger] entries[j]) is Entry,
    ensures
        reading(rows + entries) == reading(rows),
    decreases entries.len(),
{
    if entries.len() == 0 {
        assert(rows + entries == rows);
    } else {
        assert(entries[entries.len() - 1] is Entry);
        assert forall|j: int| 0 <= j < entries.len() - 1 implies (
        #[trigger] entries.drop_last()[j]) is Entry by {
            assert(entries[j] is Entry);
        }
        lemma_reading_past_entries(rows, entries.drop_last());
        assert((rows + entries).drop_last() == rows + entries.drop_last());
    }
}

proof fn lemma_known_depth(parts: Seq<Seq<char>>, drawn: Seq<Seq<char>>, d: int)
    requires
        0 <= d <= parts.len(),
    ensures
        d <= known_depth(parts, drawn, d) <= parts.len(),
        forall|e: int|
            d <= e < known_depth(parts, drawn, d) ==> drawn.contains(
                #[trigger] groups::header_path(parts, e),
            ),
        known_depth(parts, drawn, d) < parts.len() ==> !drawn.contains(
            groups::header_path(parts, known_depth(parts, drawn, d)),
        ),
    decreases parts.len() - d,
{
    if d < parts.len() && drawn.contains(groups::header_path(parts, d)) {
        lemma_known_depth(parts, drawn, d + 1);
    }
}

/// Two header paths are equal where the segments above them are, and only
/// there.
proof fn lemma_same_header_path(g: Seq<char>, d: int, h: Seq<char>, e: int)
    requires
        0 <= d < text::pieces(g, '/').len(),
        0 <= e < text::pieces(h, '/').len(),
    ensures
        groups::header_path(text::pieces(g, '/'), d) == groups::header_path(
            text::pieces(h, '/'),
            e,
        ) <==> text::pieces(g, '/').take(d + 1) == text::pieces(h, '/').take(e + 1),
{
    groups::lemma_header_path_splits(g, d);
    groups::lemma_header_path_splits(h, e);
}

/// A header is drawn exactly where a group before starts with its segments.
proof fn lemma_drawn_means_shared(order: Seq<Seq<char>>, k: int, c: int, d: int)
    requires
        0 <= k <= order.len(),
        0 <= c < order.len(),
        0 <= d < parts_of(order, c).len(),
    ensures
        sidebar::drawn_paths(order, k).contains(groups::header_path(parts_of(order, c), d))
            <==> exists|a: int|
            0 <= a < k && starts_with(#[trigger] parts_of(order, a), parts_of(order, c).take(d + 1)),
{
    let x = groups::header_path(parts_of(order, c), d);
    let front = parts_of(order, c).take(d + 1);
    sidebar::lemma_drawn_paths(order, k);
    if sidebar::drawn_paths(order, k).contains(x) {
        let a = choose|a: int| 0 <= a < k && sidebar::heads(x, #[trigger] order[a]);
        let e = choose|e: int|
            0 <= e < text::pieces(order[a], '/').len() && x == #[trigger] groups::header_path(
                text::pieces(order[a], '/'),
                e,
            );
        lemma_same_header_path(order[c], d, order[a], e);
        assert(front.len() == parts_of(order, a).take(e + 1).len());
        assert(starts_with(parts_of(order, a), front));
    }
    if exists|a: int| 0 <= a < k && starts_with(#[trigger] parts_of(order, a), front) {
        let a = choose|a: int| 0 <= a < k && starts_with(#[trigger] parts_of(order, a), front);
        lemma_same_header_path(order[c], d, order[a], d);
        assert(x == groups::header_path(text::pieces(order[a], '/'), d));
        assert(sidebar::heads(x, order[a]));
    }
}

/// Below the first missing header, all are missing.
proof fn lemma_heading(order: Seq<Seq<char>>, k: int, n: int)
    requires
        0 <= k < order.len(),
        0 <= n <= parts_of(order, k).len(),
    ensures
        ({
            let parts = parts_of(order, k);
            let drawn = sidebar::drawn_paths(order, k);
            let known = known_depth(parts, drawn, 0);
            groups::missing_headers(parts, drawn, n) == Seq::new(
                if n > known {
                    (n - known) as nat
                } else {
                    0
                },
                |i: int| (parts[known + i], (known + i) as usize),
            )
        }),
    decreases n,
{
    let parts = parts_of(order, k);
    let drawn = sidebar::drawn_paths(order, k);
    let known = known_depth(parts, drawn, 0);
    let all = Seq::new(
        if n > known {
            (n - known) as nat
        } else {
            0
        },
        |i: int| (parts[known + i], (known + i) as usize),
    );
    lemma_known_depth(parts, drawn, 0);
    if n > 0 {
        lemma_heading(order, k, n - 1);
        if n - 1 >= known {
            assert(!drawn.contains(groups::header_path(parts, n - 1))) by {
                if drawn.contains(groups::header_path(parts, n - 1)) {
                    lemma_drawn_means_shared(order, k, k, n - 1);
                    let a = choose|a: int|
                        0 <= a < k && starts_with(#[trigger] parts_of(order, a), parts.take(n));
                    assert(starts_with(parts_of(order, a), parts.take(known + 1))) by {
                        assert(parts_of(order, a).take(known + 1) == parts_of(order, a).take(
                            n,
                        ).take(known + 1));
                        assert(parts.take(n).take(known + 1) == parts.take(known + 1));
                    }
                    lemma_drawn_means_shared(order, k, k, known);
                }
            }
        }
        assert(groups::missing_headers(parts, drawn, n) == all);
    } else {
        assert(groups::missing_headers(parts, drawn, n) == all);
    }
}

/// What a reader is in after the first `t` missing headers of a group.
proof fn lemma_reading_headers(above: Seq<RowView>, order: Seq<Seq<char>>, k: int, t: int)
    requires
        0 <= k < order.len(),
        parts_of(order, k).len() <= usize::MAX,
        0 <= t <= sidebar::heading(order, k).len(),
    ensures
        ({
            let parts = parts_of(order, k);
            let known = known_depth(parts, sidebar::drawn_paths(order, k), 0);
            reading(above + sidebar::heading(order, k).take(t)) == if t == 0 {
                reading(above)
            } else {
                upto(reading(above), known) + parts.subrange(known, known + t)
            }
        }),
    decreases t,
{
    let parts = parts_of(order, k);
    let drawn = sidebar::drawn_paths(order, k);
    let known = known_depth(parts, drawn, 0);
    let heads = sidebar::heading(order, k);
    let pos = reading(above);
    lemma_known_depth(parts, drawn, 0);
    lemma_heading(order, k, parts.len() as int);
    if t == 0 {
        assert(above + heads.take(0) == above);
    } else {
        lemma_reading_headers(above, order, k, t - 1);
        let rows = above + heads.take(t);
        assert(rows.drop_last() == above + heads.take(t - 1));
        assert(rows.last() == heads[t - 1]);
        let depth = known + t - 1;
        assert(heads[t - 1] == RowView::Header { label: parts[depth], depth: depth as usize });
        let before = reading(rows.drop_last());
        if t == 1 {
            assert(parts.subrange(known, known + 1) == seq![parts[known]]);
        } else {
            assert(before.len() <= depth);
            assert(upto(before, depth) == before);
            assert(parts.subrange(known, known + t) == parts.subrange(known, known + t - 1).push(
                parts[depth],
            ));
        }
        assert(reading(rows) == upto(pos, known) + parts.subrange(known, known + t));
    }
}

/// After its headers, a reader is in a group exactly where the group goes on
/// where the outline stands.
proof fn lemma_in_place(servers: Seq<ServerView>, order: Seq<Seq<char>>, k: int)
    requires
        0 <= k < order.len(),
        parts_of(order, k).len() <= usize::MAX,
    ensures
        starts_with(
            reading(sidebar::rows_upto(servers, order, k) + sidebar::heading(order, k)),
            parts_of(order, k),
        ) <==> in_place(servers, order, k),
{
    let parts = parts_of(order, k);
    let n = parts.len() as int;
    let drawn = sidebar::drawn_paths(order, k);
    let known = known_depth(parts, drawn, 0);
    let above = sidebar::rows_upto(servers, order, k);
    let pos = reading(above);
    let heads = sidebar::heading(order, k);
    lemma_known_depth(parts, drawn, 0);
    lemma_heading(order, k, n);
    assert(heads.len() == n - known);
    lemma_reading_headers(above, order, k, heads.len() as int);
    assert(heads.take(heads.len() as int) == heads);
    let after = reading(above + heads);
    if known == n {
        assert(parts.take(known) == parts);
    } else {
        let q = upto(pos, known);
        let tail = parts.subrange(known, n);
        assert(after == q + tail);
        assert(parts == parts.take(known) + tail);
        if starts_with(after, parts) {
            assert(q.len() == known);
            assert(q == parts.take(known)) by {
                assert forall|i: int| 0 <= i < known implies q[i] == parts[i] by {
                    assert(after.take(n)[i] == parts[i]);
                }
            }
            assert(pos.take(known) == parts.take(known));
        }
        if in_place(servers, order, k) {
            assert(q == parts.take(known));
            assert(after.take(n) == parts);
        }
    }
}

/// What a reader is in past the entries of a group is what it was before them.
proof fn lemma_rows_after_group(servers: Seq<ServerView>, order: Seq<Seq<char>>, k: int)
    requires
        0 <= k < order.len(),
    ensures
        reading(sidebar::rows_upto(servers, order, k + 1)) == reading(
            sidebar::rows_upto(servers, order, k) + sidebar::heading(order, k),
        ),
{
    let above = sidebar::rows_upto(servers, order, k);
    let members = sidebar::entries(servers, order[k], servers.len() as int);
    sidebar::lemma_entries_only(servers, order[k], servers.len() as int);
    lemma_reading_past_entries(above + sidebar::heading(order, k), members);
    assert(sidebar::rows_upto(servers, order, k + 1) == above + sidebar::heading(order, k) + members);
}

/// The group whose rows hold the entry at `j`, and what a reader is in there.
proof fn lemma_reading_at_entry(
    servers: Seq<ServerView>,
    order: Seq<Seq<char>>,
    k: int,
    j: int,
) -> (a: int)
    requires
        0 <= k <= order.len(),
        servers.len() <= usize::MAX,
        0 <= j < sidebar::rows_upto(servers, order, k).len(),
        sidebar::rows_upto(servers, order, k)[j] is Entry,
    ensures
        0 <= a < k,
        order[a] == sidebar::server_groups(servers)[sidebar::rows_upto(
            servers,
            order,
            k,
        )[j]->index as int],
        reading(sidebar::rows_upto(servers, order, k).take(j)) == reading(
            sidebar::rows_upto(servers, order, a) + sidebar::heading(order, a),
        ),
{
    let (a, m) = sidebar::lemma_locate(servers, order, k, j);
    let front = sidebar::entries(servers, order[a], servers.len() as int).take(m);
    sidebar::lemma_entries_only(servers, order[a], servers.len() as int);
    lemma_reading_past_entries(
        sidebar::rows_upto(servers, order, a) + sidebar::heading(order, a),
        front,
    );
    a
}

/// A row of group `a`, which has a server.
proof fn lemma_group_has_entry(servers: Seq<ServerView>, a: int) -> (j: int)
    requires
        servers.len() <= usize::MAX,
        0 <= a < sidebar::group_order(servers).len(),
    ensures
        0 <= j < sidebar::sidebar(servers).len(),
        sidebar::sidebar(servers)[j] is Entry,
        sidebar::server_groups(servers)[sidebar::sidebar(servers)[j]->index as int]
            == sidebar::group_order(servers)[a],
{
    let order = sidebar::group_order(servers);
    let names = sidebar::server_groups(servers);
    sidebar::law_groups_by_first_appearance(names);
    assert(order.contains(order[a]));
    let i = choose|i: int| 0 <= i < names.len() && names[i] == order[a];
    let members = sidebar::entries(servers, order[a], servers.len() as int);
    sidebar::lemma_entries(servers, order[a], servers.len() as int, i);
    let e = sidebar::entry(servers, order[a], i);
    let m = choose|m: int| 0 <= m < members.len() && members[m] == e;
    let at = sidebar::rows_upto(servers, order, a).len() + sidebar::heading(order, a).len() + m;
    assert(sidebar::rows_upto(servers, order, a + 1)[at] == e);
    sidebar::lemma_rows_prefix(servers, order, a + 1, order.len() as int);
    let whole = sidebar::sidebar(servers);
    let part = sidebar::rows_upto(servers, order, a + 1);
    assert(whole.take(part.len() as int)[at] == e);
    at
}

/// The sidebar reads as a tree, with every server under its own group, exactly
/// where every group goes on where the outline stands when its turn comes.
pub proof fn law_when_the_sidebar_reads_as_a_tree(servers: Seq<ServerView>)
    requires
        servers.len() <= usize::MAX,
        forall|k: int|
            0 <= k < sidebar::group_order(servers).len() ==> (#[trigger] parts_of(
                sidebar::group_order(servers),
                k,
            )).len() <= usize::MAX,
    ensures
        (forall|j: int|
            0 <= j < sidebar::sidebar(servers).len() && sidebar::sidebar(servers)[j] is Entry
                ==> #[trigger] read_under_its_group(servers, j)) <==> (forall|k: int|
            0 <= k < sidebar::group_order(servers).len() ==> #[trigger] in_place(
                servers,
                sidebar::group_order(servers),
                k,
            )),
{
    let order = sidebar::group_order(servers);
    let n = order.len() as int;
    let rows = sidebar::sidebar(servers);
    sidebar::law_groups_by_first_appearance(sidebar::server_groups(servers));
    if forall|j: int|
        0 <= j < rows.len() && rows[j] is Entry ==> #[trigger] read_under_its_group(servers, j) {
        assert forall|k: int| 0 <= k < n implies #[trigger] in_place(servers, order, k) by {
            let j = lemma_group_has_entry(servers, k);
            assert(read_under_its_group(servers, j));
            let a = lemma_reading_at_entry(servers, order, n, j);
            assert(order[a] == order[k]);
            assert(a == k);
            assert(parts_of(order, k).len() <= usize::MAX);
            lemma_in_place(servers, order, k);
        }
    }
    if forall|k: int| 0 <= k < n ==> #[trigger] in_place(servers, order, k) {
        assert forall|j: int| 0 <= j < rows.len() && rows[j] is Entry implies
            #[trigger] read_under_its_group(servers, j) by {
            let a = lemma_reading_at_entry(servers, order, n, j);
            assert(parts_of(order, a).len() <= usize::MAX);
            assert(in_place(servers, order, a));
            lemma_in_place(servers, order, a);
        }
    }
}

/// Where groups with a common parent stand together, the sidebar reads as a
/// tree: every server is found under its own group.
pub proof fn law_groups_together_read_as_a_tree(servers: Seq<ServerView>, j: int)
    requires
        servers.len() <= usize::MAX,
        forall|k: int|
            0 <= k < sidebar::group_order(servers).len() ==> (#[trigger] parts_of(
                sidebar::group_order(servers),
                k,
            )).len() <= usize::MAX,
        stand_together(sidebar::group_order(servers)),
        0 <= j < sidebar::sidebar(servers).len(),
        sidebar::sidebar(servers)[j] is Entry,
    ensures
        read_under_its_group(servers, j),
{
    let order = sidebar::group_order(servers);
    assert forall|k: int| 0 <= k < order.len() implies #[trigger] in_place(
        servers,
        order,
        k,
    ) by {
        lemma_together_in_place(servers, order, k);
    }
    law_when_the_sidebar_reads_as_a_tree(servers);
}

proof fn lemma_together_in_place(servers: Seq<ServerView>, order: Seq<Seq<char>>, k: int)
    requires
        0 <= k < order.len(),
        forall|i: int| 0 <= i < order.len() ==> (#[trigger] parts_of(order, i)).len() <= usize::MAX,
        stand_together(order),
    ensures
        in_place(servers, order, k),
    decreases k,
{
    let parts = parts_of(order, k);
    let drawn = sidebar::drawn_paths(order, k);
    let known = known_depth(parts, drawn, 0);
    let pos = reading(sidebar::rows_upto(servers, order, k));
    let front = parts.take(known);
    lemma_known_depth(parts, drawn, 0);
    if known == 0 {
        assert(pos.take(0) == front);
    } else {
        assert(drawn.contains(groups::header_path(parts, known - 1)));
        lemma_drawn_means_shared(order, k, k, known - 1);
        let a = choose|a: int|
            0 <= a < k && starts_with(#[trigger] parts_of(order, a), parts.take(known));
        let prev = parts_of(order, k - 1);
        assert(starts_with(parts, front));
        assert(starts_with(prev, front)) by {
            if a < k - 1 {
                assert(starts_with(parts_of(order, a), front));
                assert(starts_with(parts_of(order, k), front));
                let _ = starts_with(parts_of(order, k - 1), front);
            }
        }
        lemma_together_in_place(servers, order, k - 1);
        assert(prev.len() <= usize::MAX);
        lemma_in_place(servers, order, k - 1);
        lemma_rows_after_group(servers, order, k - 1);
        assert(starts_with(pos, prev));
        assert(pos.take(known) == pos.take(prev.len() as int).take(known));
    }
}

/// The headers right above a server lead down to its group: from any header on,
/// each row is a header one level deeper that shows the group's segment at that
/// depth, until the last segment is reached, and then comes a server of that
/// group.
pub proof fn law_headers_lead_down_to_a_server(servers: Seq<ServerView>, h: int) -> (e: int)
    requires
        servers.len() <= usize::MAX,
        forall|i: int|
            0 <= i < servers.len() ==> text::pieces(
                groups::group_path((#[trigger] servers[i]).group),
                '/',
            ).len() <= usize::MAX,
        0 <= h < sidebar::sidebar(servers).len(),
        sidebar::sidebar(servers)[h] is Header,
    ensures
        ({
            let rows = sidebar::sidebar(servers);
            let parts = text::pieces(
                groups::group_path(servers[rows[e]->index as int].group),
                '/',
            );
            &&& h < e < rows.len()
            &&& rows[e] is Entry
            &&& 0 <= rows[e]->index < servers.len()
            &&& forall|x: int|
                h <= x < e ==> {
                    let row = #[trigger] rows[x];
                    &&& row is Header
                    &&& row->Header_depth + (e - x) == parts.len()
                    &&& row->label == parts[row->Header_depth as int]
                }
        }),
{
    let order = sidebar::group_order(servers);
    let rows = sidebar::sidebar(servers);
    let (a, t) = sidebar::lemma_locate_header(servers, order, order.len() as int, h);
    let from = sidebar::rows_upto(servers, order, a).len() as int;
    let heads = sidebar::heading(order, a);
    let e = from + heads.len();
    sidebar::lemma_group_in_sidebar(servers, a);
    let i = rows[e]->index as int;
    assert(text::pieces(groups::group_path(servers[i].group), '/').len() <= usize::MAX);
    let parts = parts_of(order, a);
    lemma_known_depth(parts, sidebar::drawn_paths(order, a), 0);
    lemma_heading(order, a, parts.len() as int);
    assert forall|x: int| h <= x < e implies {
        let row = #[trigger] rows[x];
        &&& row is Header
        &&& row->Header_depth + (e - x) == parts.len()
        &&& row->label == parts[row->Header_depth as int]
    } by {
        assert(rows[x] == heads[x - from]);
    }
    e
}

} // verus!
