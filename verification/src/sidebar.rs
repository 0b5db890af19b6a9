//! The sidebar: group headers and, under them, the servers of each group.

use vstd::prelude::*;
use crate::groups;
use crate::servers::{Server, ServerView};
use crate::text;

verus! {

/// One row of the sidebar.
#[derive(Debug, PartialEq)]
pub enum SidebarRow {
    /// A group header. Depth 0 is the outermost level.
    Header { label: String, depth: usize },
    /// A server: its index in the list, its name, and its depth.
    Entry { index: usize, name: String, depth: usize },
}

/// What a row holds.
pub enum RowView {
    Header { label: Seq<char>, depth: usize },
    Entry { index: usize, name: Seq<char>, depth: usize },
}

impl DeepView for SidebarRow {
    type V = RowView;

    open spec fn deep_view(&self) -> RowView {
        match self {
            SidebarRow::Header { label, depth } => RowView::Header { label: label@, depth: *depth },
            SidebarRow::Entry { index, name, depth } => RowView::Entry {
                index: *index,
                name: name@,
                depth: *depth,
            },
        }
    }
}

/// The normalised group path of each server.
pub open spec fn server_groups(servers: Seq<ServerView>) -> Seq<Seq<char>> {
    Seq::new(servers.len(), |i: int| groups::group_path(servers[i].group))
}

/// The different groups, in the order in which they first appear.
pub open spec fn first_appearances(names: Seq<Seq<char>>) -> Seq<Seq<char>>
    decreases names.len(),
{
    if names.len() == 0 {
        Seq::empty()
    } else {
        let before = first_appearances(names.drop_last());
        if before.contains(names.last()) {
            before
        } else {
            before.push(names.last())
        }
    }
}

/// The groups of the servers, in the order in which they first appear.
pub open spec fn group_order(servers: Seq<ServerView>) -> Seq<Seq<char>> {
    first_appearances(server_groups(servers))
}

/// How deep the servers of group `g` lie: one level below its last header.
pub open spec fn entry_depth(g: Seq<char>) -> usize {
    text::pieces(g, '/').len() as usize
}

/// The row of the server at `i`, in group `g`.
pub open spec fn entry(servers: Seq<ServerView>, g: Seq<char>, i: int) -> RowView {
    RowView::Entry { index: i as usize, name: servers[i].name, depth: entry_depth(g) }
}

/// The rows of the first `n` servers, as far as they are in group `g`.
pub open spec fn entries(servers: Seq<ServerView>, g: Seq<char>, n: int) -> Seq<RowView>
    decreases n,
{
    if n <= 0 {
        Seq::empty()
    } else {
        let before = entries(servers, g, n - 1);
        if server_groups(servers)[n - 1] == g {
            before.push(entry(servers, g, n - 1))
        } else {
            before
        }
    }
}

/// Headers as rows.
pub open spec fn header_rows(headers: Seq<(Seq<char>, usize)>) -> Seq<RowView> {
    Seq::new(
        headers.len(),
        |i: int| RowView::Header { label: headers[i].0, depth: headers[i].1 },
    )
}

/// The header paths drawn with the first `k` groups of `order`.
pub open spec fn drawn_paths(order: Seq<Seq<char>>, k: int) -> Seq<Seq<char>>
    decreases k,
{
    if k <= 0 {
        Seq::empty()
    } else {
        let drawn = drawn_paths(order, k - 1);
        let parts = text::pieces(order[k - 1], '/');
        drawn + groups::missing_paths(parts, drawn, parts.len() as int)
    }
}

/// The headers of group `k` of `order` that are still missing, as rows.
pub open spec fn heading(order: Seq<Seq<char>>, k: int) -> Seq<RowView> {
    let parts = text::pieces(order[k], '/');
    header_rows(groups::missing_headers(parts, drawn_paths(order, k), parts.len() as int))
}

/// The rows of group `k` of `order`: the headers that are still missing, then
/// its servers.
pub open spec fn group_rows(
    servers: Seq<ServerView>,
    order: Seq<Seq<char>>,
    k: int,
) -> Seq<RowView> {
    heading(order, k) + entries(servers, order[k], servers.len() as int)
}

/// The rows of the first `k` groups of `order`.
pub open spec fn rows_upto(
    servers: Seq<ServerView>,
    order: Seq<Seq<char>>,
    k: int,
) -> Seq<RowView>
    decreases k,
{
    if k <= 0 {
        Seq::empty()
    } else {
        rows_upto(servers, order, k - 1) + group_rows(servers, order, k - 1)
    }
}

/// All rows of the sidebar.
pub open spec fn sidebar(servers: Seq<ServerView>) -> Seq<RowView> {
    rows_upto(servers, group_order(servers), group_order(servers).len() as int)
}

/// The groups of the servers, in the order in which they first appear.
pub fn groups_in_order(servers: &Vec<Server>) -> (r: Vec<String>)
    ensures
        r.deep_view() == group_order(servers.deep_view()),
{
    let ghost names = server_groups(servers.deep_view());
    let mut r: Vec<String> = Vec::new();
    let mut i: usize = 0;
    while i < servers.len()
        invariant
            i <= servers.len(),
            names == server_groups(servers.deep_view()),
            names.len() == servers.len(),
            r.deep_view() == first_appearances(names.take(i as int)),
        decreases servers.len() - i,
    {
        let g = groups::group_name(&servers[i]);
        assert(names.take(i + 1).drop_last() == names.take(i as int));
        assert(names.take(i + 1).last() == g@);
        if !text::contains(&r, &g) {
            let ghost before = r.deep_view();
            r.push(g);
            assert(r.deep_view() == before.push(g@));
        }
        i = i + 1;
    }
    assert(names.take(i as int) == names);
    r
}

/// The rows of the sidebar, from the top down.
pub fn sidebar_rows(servers: &Vec<Server>) -> (rows: Vec<SidebarRow>)
    ensures
        rows.deep_view() == sidebar(servers.deep_view()),
{
    let ghost sv = servers.deep_view();
    let order = groups_in_order(servers);
    let ghost ov = order.deep_view();
    let mut rows: Vec<SidebarRow> = Vec::new();
    let mut drawn: Vec<String> = Vec::new();
    let mut k: usize = 0;
    while k < order.len()
        invariant
            k <= order.len(),
            sv == servers.deep_view(),
            ov == order.deep_view(),
            rows.deep_view() == rows_upto(sv, ov, k as int),
            drawn.deep_view() == drawn_paths(ov, k as int),
        decreases order.len() - k,
    {
        let ghost above = rows.deep_view();
        let headers = groups::headers_to_draw(order[k].as_str(), &mut drawn);
        let ghost hv = headers.deep_view();
        let mut h: usize = 0;
        while h < headers.len()
            invariant
                h <= headers.len(),
                hv == headers.deep_view(),
                rows.deep_view() == above + header_rows(hv).take(h as int),
            decreases headers.len() - h,
        {
            let ghost before = rows.deep_view();
            let label = headers[h].0.clone();
            let depth: usize = headers[h].1;
            let row = SidebarRow::Header { label, depth };
            assert(row.deep_view() == header_rows(hv)[h as int]);
            rows.push(row);
            assert(rows.deep_view() == before.push(header_rows(hv)[h as int]));
            assert(header_rows(hv).take(h + 1) == header_rows(hv).take(h as int).push(
                header_rows(hv)[h as int],
            ));
            h = h + 1;
        }
        assert(header_rows(hv).take(h as int) == header_rows(hv));
        let ghost headed = rows.deep_view();
        let depth = text::split(order[k].as_str(), '/').len();
        let mut i: usize = 0;
        while i < servers.len()
            invariant
                k < order.len(),
                i <= servers.len(),
                sv == servers.deep_view(),
                ov == order.deep_view(),
                depth == entry_depth(ov[k as int]),
                rows.deep_view() == headed + entries(sv, ov[k as int], i as int),
            decreases servers.len() - i,
        {
            let ghost before = rows.deep_view();
            let g = groups::group_name(&servers[i]);
            assert(g@ == server_groups(sv)[i as int]);
            if g == order[k] {
                let row = SidebarRow::Entry { index: i, name: servers[i].name.clone(), depth };
                assert(row.deep_view() == entry(sv, ov[k as int], i as int));
                rows.push(row);
                assert(rows.deep_view() == before.push(row.deep_view()));
                assert(headed + entries(sv, ov[k as int], i + 1) == before.push(row.deep_view()));
            }
            i = i + 1;
        }
        k = k + 1;
        assert(rows.deep_view() == above + group_rows(sv, ov, k - 1));
    }
    rows
}

/// Whether `g` appears among the names before `h` does.
pub open spec fn appears_before(names: Seq<Seq<char>>, g: Seq<char>, h: Seq<char>) -> bool {
    exists|a: int|
        0 <= a < names.len() && #[trigger] names[a] == g && !names.take(a + 1).contains(h)
}

/// The groups in order are all groups of the servers, each once, and of two
/// groups the one that appears first comes first.
pub proof fn law_groups_by_first_appearance(names: Seq<Seq<char>>)
    ensures
        first_appearances(names).no_duplicates(),
        forall|g: Seq<char>| #[trigger]
            first_appearances(names).contains(g) <==> names.contains(g),
        forall|i: int, j: int|
            0 <= i < j < first_appearances(names).len() ==> appears_before(
                names,
                #[trigger] first_appearances(names)[i],
                #[trigger] first_appearances(names)[j],
            ),
    decreases names.len(),
{
    if names.len() > 0 {
        let rest = names.drop_last();
        let last = names.last();
        let before = first_appearances(rest);
        let all = first_appearances(names);
        law_groups_by_first_appearance(rest);
        assert(names == rest.push(last));
        assert forall|g: Seq<char>| #[trigger] all.contains(g) <==> names.contains(g) by {
            groups::lemma_contains_concat(rest, seq![last], g);
            groups::lemma_contains_concat(before, seq![last], g);
            assert(rest + seq![last] == names);
            assert(before + seq![last] == before.push(last));
            assert(seq![last].contains(g) <==> g == last) by {
                assert(seq![last][0] == last);
            }
        }
        assert forall|i: int, j: int| 0 <= i < j < all.len() implies appears_before(
            names,
            #[trigger] all[i],
            #[trigger] all[j],
        ) by {
            assert(all[i] == before[i]);
            if j < before.len() {
                assert(appears_before(rest, before[i], before[j]));
                let a = choose|a: int|
                    0 <= a < rest.len() && #[trigger] rest[a] == before[i] && !rest.take(
                        a + 1,
                    ).contains(before[j]);
                assert(names.take(a + 1) == rest.take(a + 1));
                assert(names[a] == all[i]);
            } else {
                assert(before.contains(before[i]));
                let a = choose|a: int| 0 <= a < rest.len() && rest[a] == before[i];
                assert(names[a] == all[i]);
                assert(all[j] == last);
                assert(!rest.contains(last));
                let front = names.take(a + 1);
                if front.contains(last) {
                    let b = choose|b: int| 0 <= b < front.len() && front[b] == last;
                    assert(rest[b] == last);
                }
            }
        }
    }
}

/// How many of the rows are the server at `i`.
pub open spec fn appearances(rows: Seq<RowView>, i: int) -> nat
    decreases rows.len(),
{
    if rows.len() == 0 {
        0
    } else {
        appearances(rows.drop_last(), i) + (if rows.last() is Entry && rows.last()->index == i {
            1nat
        } else {
            0nat
        })
    }
}

proof fn lemma_appearances_concat(a: Seq<RowView>, b: Seq<RowView>, i: int)
    ensures
        appearances(a + b, i) == appearances(a, i) + appearances(b, i),
    decreases b.len(),
{
    if b.len() == 0 {
        assert(a + b == a);
    } else {
        lemma_appearances_concat(a, b.drop_last(), i);
        assert((a + b).drop_last() == a + b.drop_last());
    }
}

proof fn lemma_headers_are_no_entries(rows: Seq<RowView>, i: int)
    requires
        forall|j: int| 0 <= j < rows.len() ==> (#[trigger] rows[j]) is Header,
    ensures
        appearances(rows, i) == 0,
    decreases rows.len(),
{
    if rows.len() > 0 {
        assert(rows[rows.len() - 1] is Header);
        assert forall|j: int| 0 <= j < rows.len() - 1 implies (
        #[trigger] rows.drop_last()[j]) is Header by {
            assert(rows[j] is Header);
        }
        lemma_headers_are_no_entries(rows.drop_last(), i);
    }
}

pub(crate) proof fn lemma_entries(servers: Seq<ServerView>, g: Seq<char>, n: int, i: int)
    requires
        0 <= n <= servers.len() <= usize::MAX,
        0 <= i < servers.len(),
    ensures
        appearances(entries(servers, g, n), i) == (if i < n && server_groups(servers)[i] == g {
            1nat
        } else {
            0nat
        }),
        forall|j: int|
            0 <= j < entries(servers, g, n).len() ==> {
                let row = #[trigger] entries(servers, g, n)[j];
                &&& row is Entry
                &&& row->index < n
                &&& server_groups(servers)[row->index as int] == g
                &&& row == entry(servers, g, row->index as int)
            },
        i < n && server_groups(servers)[i] == g ==> entries(servers, g, n).contains(
            entry(servers, g, i),
        ),
    decreases n,
{
    if n > 0 {
        lemma_entries(servers, g, n - 1, i);
        let before = entries(servers, g, n - 1);
        let all = entries(servers, g, n);
        if server_groups(servers)[n - 1] == g {
            assert(all.drop_last() == before);
            assert(all[before.len() as int] == entry(servers, g, n - 1));
            if i < n - 1 && server_groups(servers)[i] == g {
                let k = choose|k: int| 0 <= k < before.len() && before[k] == entry(servers, g, i);
                assert(all[k] == entry(servers, g, i));
            }
        }
    }
}

proof fn lemma_rows_upto(servers: Seq<ServerView>, order: Seq<Seq<char>>, k: int, i: int)
    requires
        0 <= k <= order.len(),
        order.no_duplicates(),
        0 <= i < servers.len() <= usize::MAX,
    ensures
        appearances(rows_upto(servers, order, k), i) == (if order.take(k).contains(
            server_groups(servers)[i],
        ) {
            1nat
        } else {
            0nat
        }),
        forall|j: int|
            0 <= j < rows_upto(servers, order, k).len() && (#[trigger] rows_upto(
                servers,
                order,
                k,
            )[j]) is Entry ==> {
                let row = rows_upto(servers, order, k)[j];
                &&& row->index < servers.len()
                &&& row == entry(
                    servers,
                    server_groups(servers)[row->index as int],
                    row->index as int,
                )
            },
    decreases k,
{
    let g = server_groups(servers)[i];
    if k > 0 {
        lemma_rows_upto(servers, order, k - 1, i);
        let above = rows_upto(servers, order, k - 1);
        let own = order[k - 1];
        let parts = text::pieces(own, '/');
        let heads = header_rows(
            groups::missing_headers(parts, drawn_paths(order, k - 1), parts.len() as int),
        );
        let members = entries(servers, own, servers.len() as int);
        lemma_headers_are_no_entries(heads, i);
        lemma_entries(servers, own, servers.len() as int, i);
        lemma_appearances_concat(heads, members, i);
        lemma_appearances_concat(above, heads + members, i);
        assert(order.take(k) == order.take(k - 1) + seq![own]);
        groups::lemma_contains_concat(order.take(k - 1), seq![own], g);
        assert(seq![own].contains(g) <==> g == own) by {
            assert(seq![own][0] == own);
        }
        let done = order.take(k - 1);
        if done.contains(own) {
            let a = choose|a: int| 0 <= a < done.len() && done[a] == own;
            assert(order[a] == order[k - 1]);
        }
        let all = rows_upto(servers, order, k);
        assert forall|j: int| 0 <= j < all.len() && (#[trigger] all[j]) is Entry implies {
            &&& all[j]->index < servers.len()
            &&& all[j] == entry(
                servers,
                server_groups(servers)[all[j]->index as int],
                all[j]->index as int,
            )
        } by {
            if j < above.len() {
                assert(all[j] == above[j]);
            } else if j < above.len() + heads.len() {
                assert(all[j] == heads[j - above.len()]);
            } else {
                assert(all[j] == members[j - above.len() - heads.len()]);
            }
        }
    } else {
        assert(order.take(k) == Seq::<Seq<char>>::empty());
    }
}

/// Every server has exactly one row.
pub proof fn law_every_server_listed_once(servers: Seq<ServerView>, i: int)
    requires
        0 <= i < servers.len() <= usize::MAX,
    ensures
        appearances(sidebar(servers), i) == 1,
{
    let order = group_order(servers);
    law_groups_by_first_appearance(server_groups(servers));
    lemma_rows_upto(servers, order, order.len() as int, i);
    assert(order.take(order.len() as int) == order);
    assert(server_groups(servers)[i] == server_groups(servers)[i]);
    assert(server_groups(servers).contains(server_groups(servers)[i]));
}

/// A row that is no header is a server of the list, with its name, one level
/// below the last header of its group.
pub proof fn law_entries_are_servers(servers: Seq<ServerView>, j: int)
    requires
        servers.len() <= usize::MAX,
        0 <= j < sidebar(servers).len(),
        sidebar(servers)[j] is Entry,
    ensures
        sidebar(servers)[j]->index < servers.len(),
        sidebar(servers)[j] == entry(
            servers,
            server_groups(servers)[sidebar(servers)[j]->index as int],
            sidebar(servers)[j]->index as int,
        ),
{
    let order = group_order(servers);
    law_groups_by_first_appearance(server_groups(servers));
    if servers.len() == 0 {
        assert(server_groups(servers) == Seq::<Seq<char>>::empty());
    } else {
        lemma_rows_upto(servers, order, order.len() as int, 0);
    }
}

/// The header row of a path: its last segment, at the depth of that segment.
pub open spec fn header_of(path: Seq<char>) -> RowView {
    RowView::Header {
        label: text::pieces(path, '/').last(),
        depth: (text::pieces(path, '/').len() - 1) as usize,
    }
}

/// The header rows of these paths.
pub open spec fn headers_for(paths: Seq<Seq<char>>) -> Seq<RowView> {
    Seq::new(paths.len(), |i: int| header_of(paths[i]))
}

/// The rows that are headers.
pub open spec fn headers_of(rows: Seq<RowView>) -> Seq<RowView>
    decreases rows.len(),
{
    if rows.len() == 0 {
        Seq::empty()
    } else if rows.last() is Header {
        headers_of(rows.drop_last()).push(rows.last())
    } else {
        headers_of(rows.drop_last())
    }
}

/// Whether `x` is the path of a header above group `g`: the group's own path,
/// or that of a group around it.
pub open spec fn heads(x: Seq<char>, g: Seq<char>) -> bool {
    exists|d: int|
        0 <= d < text::pieces(g, '/').len() && x == #[trigger] groups::header_path(
            text::pieces(g, '/'),
            d,
        )
}

proof fn lemma_headers_of_concat(a: Seq<RowView>, b: Seq<RowView>)
    ensures
        headers_of(a + b) == headers_of(a) + headers_of(b),
    decreases b.len(),
{
    if b.len() == 0 {
        assert(a + b == a);
        assert(headers_of(a) + headers_of(b) == headers_of(a));
    } else {
        lemma_headers_of_concat(a, b.drop_last());
        assert((a + b).drop_last() == a + b.drop_last());
        assert(headers_of(a + b) == headers_of(a) + headers_of(b));
    }
}

proof fn lemma_all_headers(rows: Seq<RowView>)
    requires
        forall|j: int| 0 <= j < rows.len() ==> (#[trigger] rows[j]) is Header,
    ensures
        headers_of(rows) == rows,
    decreases rows.len(),
{
    if rows.len() > 0 {
        assert(rows[rows.len() - 1] is Header);
        assert forall|j: int| 0 <= j < rows.len() - 1 implies (
        #[trigger] rows.drop_last()[j]) is Header by {
            assert(rows[j] is Header);
        }
        lemma_all_headers(rows.drop_last());
    }
}

proof fn lemma_no_headers(rows: Seq<RowView>)
    requires
        forall|j: int| 0 <= j < rows.len() ==> (#[trigger] rows[j]) is Entry,
    ensures
        headers_of(rows) == Seq::<RowView>::empty(),
    decreases rows.len(),
{
    if rows.len() > 0 {
        assert(rows[rows.len() - 1] is Entry);
        assert forall|j: int| 0 <= j < rows.len() - 1 implies (
        #[trigger] rows.drop_last()[j]) is Entry by {
            assert(rows[j] is Entry);
        }
        lemma_no_headers(rows.drop_last());
    }
}

pub(crate) proof fn lemma_entries_only(servers: Seq<ServerView>, g: Seq<char>, n: int)
    ensures
        forall|j: int|
            0 <= j < entries(servers, g, n).len() ==> (#[trigger] entries(servers, g, n)[j]) is Entry,
    decreases n,
{
    if n > 0 {
        lemma_entries_only(servers, g, n - 1);
    }
}

/// The missing headers are the header rows of the missing paths.
proof fn lemma_missing_match(g: Seq<char>, drawn: Seq<Seq<char>>, n: int)
    requires
        0 <= n <= text::pieces(g, '/').len(),
    ensures
        header_rows(groups::missing_headers(text::pieces(g, '/'), drawn, n)) == headers_for(
            groups::missing_paths(text::pieces(g, '/'), drawn, n),
        ),
    decreases n,
{
    let parts = text::pieces(g, '/');
    if n > 0 {
        lemma_missing_match(g, drawn, n - 1);
        groups::lemma_header_path_splits(g, n - 1);
        let hs = groups::missing_headers(parts, drawn, n);
        let ps = groups::missing_paths(parts, drawn, n);
        let hs0 = groups::missing_headers(parts, drawn, n - 1);
        let ps0 = groups::missing_paths(parts, drawn, n - 1);
        assert(header_rows(hs0).len() == headers_for(ps0).len());
        assert(header_rows(hs) == headers_for(ps)) by {
            assert forall|i: int| 0 <= i < hs.len() implies header_rows(hs)[i] == headers_for(
                ps,
            )[i] by {
                if i < hs0.len() {
                    assert(header_rows(hs0)[i] == headers_for(ps0)[i]);
                }
            }
        }
    } else {
        assert(header_rows(groups::missing_headers(parts, drawn, n)) == headers_for(
            groups::missing_paths(parts, drawn, n),
        ));
    }
}

/// The headers among the rows are those of the paths drawn.
proof fn lemma_headers_of_rows(servers: Seq<ServerView>, order: Seq<Seq<char>>, k: int)
    requires
        0 <= k <= order.len(),
    ensures
        headers_of(rows_upto(servers, order, k)) == headers_for(drawn_paths(order, k)),
    decreases k,
{
    if k > 0 {
        lemma_headers_of_rows(servers, order, k - 1);
        let above = rows_upto(servers, order, k - 1);
        let drawn = drawn_paths(order, k - 1);
        let own = order[k - 1];
        let parts = text::pieces(own, '/');
        let new = groups::missing_paths(parts, drawn, parts.len() as int);
        let hs = header_rows(groups::missing_headers(parts, drawn, parts.len() as int));
        let members = entries(servers, own, servers.len() as int);
        lemma_missing_match(own, drawn, parts.len() as int);
        lemma_entries_only(servers, own, servers.len() as int);
        lemma_all_headers(hs);
        lemma_no_headers(members);
        lemma_headers_of_concat(hs, members);
        lemma_headers_of_concat(above, hs + members);
        assert(headers_for(drawn) + headers_for(new) == headers_for(drawn + new));
        assert(headers_of(rows_upto(servers, order, k)) == headers_for(drawn_paths(order, k)));
    } else {
        assert(headers_for(drawn_paths(order, k)) == Seq::<RowView>::empty());
    }
}

/// The paths drawn are the header paths of the groups so far, each once.
pub(crate) proof fn lemma_drawn_paths(order: Seq<Seq<char>>, k: int)
    requires
        0 <= k <= order.len(),
    ensures
        drawn_paths(order, k).no_duplicates(),
        forall|x: Seq<char>| #[trigger]
            drawn_paths(order, k).contains(x) <==> exists|a: int|
                0 <= a < k && heads(x, #[trigger] order[a]),
    decreases k,
{
    if k > 0 {
        lemma_drawn_paths(order, k - 1);
        let drawn = drawn_paths(order, k - 1);
        groups::law_headers_drawn_once(order[k - 1], drawn);
        assert forall|x: Seq<char>| #[trigger] drawn_paths(order, k).contains(x) <==> exists|
            a: int,
        |
            0 <= a < k && heads(x, #[trigger] order[a]) by {
            assert(drawn_paths(order, k).contains(x) <==> drawn.contains(x) || heads(
                x,
                order[k - 1],
            ));
        }
    }
}

/// Each header is drawn once: the header rows are, in order, those of a list
/// of different paths, and a path is in that list exactly where it is the
/// path of a server's group or of a group around it.
pub proof fn law_headers_are_the_group_paths(servers: Seq<ServerView>)
    ensures
        ({
            let order = group_order(servers);
            let drawn = drawn_paths(order, order.len() as int);
            &&& headers_of(sidebar(servers)) == headers_for(drawn)
            &&& drawn.no_duplicates()
            &&& forall|x: Seq<char>| #[trigger]
                drawn.contains(x) <==> exists|i: int|
                    0 <= i < servers.len() && heads(x, #[trigger] server_groups(servers)[i])
        }),
{
    let order = group_order(servers);
    let names = server_groups(servers);
    let drawn = drawn_paths(order, order.len() as int);
    lemma_headers_of_rows(servers, order, order.len() as int);
    lemma_drawn_paths(order, order.len() as int);
    law_groups_by_first_appearance(names);
    assert forall|x: Seq<char>| #[trigger] drawn.contains(x) <==> exists|i: int|
        0 <= i < servers.len() && heads(x, #[trigger] names[i]) by {
        if drawn.contains(x) {
            let a = choose|a: int| 0 <= a < order.len() && heads(x, #[trigger] order[a]);
            assert(order.contains(order[a]));
            let i = choose|i: int| 0 <= i < names.len() && names[i] == order[a];
            assert(heads(x, names[i]));
        }
        if exists|i: int| 0 <= i < servers.len() && heads(x, #[trigger] names[i]) {
            let i = choose|i: int| 0 <= i < servers.len() && heads(x, #[trigger] names[i]);
            assert(names.contains(names[i]));
            assert(order.contains(names[i]));
            let a = choose|a: int| 0 <= a < order.len() && order[a] == names[i];
            assert(heads(x, order[a]));
        }
    }
}

/// The paths drawn with fewer groups come first.
proof fn lemma_drawn_prefix(order: Seq<Seq<char>>, a: int, b: int)
    requires
        0 <= a <= b <= order.len(),
    ensures
        drawn_paths(order, a).len() <= drawn_paths(order, b).len(),
        drawn_paths(order, b).take(drawn_paths(order, a).len() as int) == drawn_paths(order, a),
    decreases b,
{
    if a < b {
        lemma_drawn_prefix(order, a, b - 1);
        assert(drawn_paths(order, b).take(drawn_paths(order, a).len() as int) == drawn_paths(
            order,
            b - 1,
        ).take(drawn_paths(order, a).len() as int));
    } else {
        assert(drawn_paths(order, b).take(drawn_paths(order, b).len() as int) == drawn_paths(
            order,
            b,
        ));
    }
}

/// The rows of fewer groups come first.
pub(crate) proof fn lemma_rows_prefix(
    servers: Seq<ServerView>,
    order: Seq<Seq<char>>,
    a: int,
    b: int,
)
    requires
        0 <= a <= b <= order.len(),
    ensures
        rows_upto(servers, order, a).len() <= rows_upto(servers, order, b).len(),
        rows_upto(servers, order, b).take(rows_upto(servers, order, a).len() as int) == rows_upto(
            servers,
            order,
            a,
        ),
    decreases b,
{
    let front = rows_upto(servers, order, a);
    let all = rows_upto(servers, order, b);
    if a < b {
        lemma_rows_prefix(servers, order, a, b - 1);
        assert(all.take(front.len() as int) == rows_upto(servers, order, b - 1).take(
            front.len() as int,
        ));
    } else {
        assert(all.take(all.len() as int) == all);
    }
}

/// The group of `order` whose rows hold the entry at `j`, what stands above
/// that entry, and which of the group's entries it is.
pub(crate) proof fn lemma_locate(
    servers: Seq<ServerView>,
    order: Seq<Seq<char>>,
    k: int,
    j: int,
) -> (at: (int, int))
    requires
        0 <= k <= order.len(),
        servers.len() <= usize::MAX,
        0 <= j < rows_upto(servers, order, k).len(),
        rows_upto(servers, order, k)[j] is Entry,
    ensures
        ({
            let (a, m) = at;
            let all = rows_upto(servers, order, k);
            let members = entries(servers, order[a], servers.len() as int);
            &&& 0 <= a < k
            &&& 0 <= m < members.len()
            &&& all[j] == members[m]
            &&& order[a] == server_groups(servers)[all[j]->index as int]
            &&& all.take(j) == rows_upto(servers, order, a) + heading(order, a) + members.take(m)
            &&& j == rows_upto(servers, order, a).len() + heading(order, a).len() + m
            &&& j < rows_upto(servers, order, a + 1).len()
        }),
    decreases k,
{
    let all = rows_upto(servers, order, k);
    let above = rows_upto(servers, order, k - 1);
    if j < above.len() {
        assert(all.take(j) == above.take(j));
        lemma_locate(servers, order, k - 1, j)
    } else {
        let own = order[k - 1];
        let hs = heading(order, k - 1);
        let members = entries(servers, own, servers.len() as int);
        if j < above.len() + hs.len() {
            assert(all[j] == hs[j - above.len()]);
        }
        let m = j - above.len() - hs.len();
        assert(all[j] == members[m]);
        assert(servers.len() > 0) by {
            if servers.len() == 0 {
                assert(members == Seq::<RowView>::empty());
            }
        }
        lemma_entries(servers, own, servers.len() as int, 0);
        assert(all.take(j) == above + hs + members.take(m));
        (k - 1, m)
    }
}

/// The entries of one group stand in the order of the list.
proof fn lemma_entries_in_order(servers: Seq<ServerView>, g: Seq<char>, n: int, x: int, y: int)
    requires
        0 <= n <= servers.len() <= usize::MAX,
        0 <= x < y < entries(servers, g, n).len(),
    ensures
        entries(servers, g, n)[x]->index < entries(servers, g, n)[y]->index,
    decreases n,
{
    if n > 0 {
        let before = entries(servers, g, n - 1);
        lemma_entries(servers, g, n - 1, 0);
        if y < before.len() {
            lemma_entries_in_order(servers, g, n - 1, x, y);
        } else {
            assert(entries(servers, g, n)[x] == before[x]);
        }
    }
}

/// The order of the rows: of two servers of one group, the one that comes
/// first in the list stands above; of two servers of different groups, the one
/// whose group appears first in the list.
pub proof fn law_row_order(servers: Seq<ServerView>, upper: int, lower: int)
    requires
        servers.len() <= usize::MAX,
        0 <= upper < lower < sidebar(servers).len(),
        sidebar(servers)[upper] is Entry,
        sidebar(servers)[lower] is Entry,
    ensures
        ({
            let names = server_groups(servers);
            let i = sidebar(servers)[upper]->index as int;
            let k = sidebar(servers)[lower]->index as int;
            if names[i] == names[k] {
                i < k
            } else {
                appears_before(names, names[i], names[k])
            }
        }),
{
    let order = group_order(servers);
    let n = order.len() as int;
    law_groups_by_first_appearance(server_groups(servers));
    let (a, x) = lemma_locate(servers, order, n, upper);
    let (b, y) = lemma_locate(servers, order, n, lower);
    if b < a {
        lemma_rows_prefix(servers, order, b + 1, a);
    } else if a < b {
        assert(order[a] != order[b]);
        assert(appears_before(server_groups(servers), order[a], order[b]));
    } else {
        lemma_entries_in_order(servers, order[a], servers.len() as int, x, y);
    }
}

/// The headers above the entry at `j` are those of its group and of the groups
/// before it.
proof fn lemma_headers_above(
    servers: Seq<ServerView>,
    order: Seq<Seq<char>>,
    k: int,
    j: int,
) -> (a: int)
    requires
        0 <= k <= order.len(),
        servers.len() <= usize::MAX,
        0 <= j < rows_upto(servers, order, k).len(),
        rows_upto(servers, order, k)[j] is Entry,
    ensures
        0 <= a < k,
        order[a] == server_groups(servers)[rows_upto(servers, order, k)[j]->index as int],
        headers_of(rows_upto(servers, order, k).take(j)) == headers_for(drawn_paths(order, a + 1)),
{
    let (a, m) = lemma_locate(servers, order, k, j);
    let above = rows_upto(servers, order, a);
    let drawn = drawn_paths(order, a);
    let parts = text::pieces(order[a], '/');
    let new = groups::missing_paths(parts, drawn, parts.len() as int);
    let hs = heading(order, a);
    let front = entries(servers, order[a], servers.len() as int).take(m);
    lemma_entries_only(servers, order[a], servers.len() as int);
    lemma_missing_match(order[a], drawn, parts.len() as int);
    lemma_headers_of_rows(servers, order, a);
    lemma_all_headers(hs);
    lemma_no_headers(front);
    lemma_headers_of_concat(above, hs);
    lemma_headers_of_concat(above + hs, front);
    assert(headers_for(drawn) + headers_for(new) == headers_for(drawn + new));
    a
}

/// A server stands below the headers of its group and of every group around
/// it: each of their paths is among those of the headers above its row.
pub proof fn law_server_below_its_headers(servers: Seq<ServerView>, j: int, x: Seq<char>)
    requires
        servers.len() <= usize::MAX,
        0 <= j < sidebar(servers).len(),
        sidebar(servers)[j] is Entry,
        heads(x, server_groups(servers)[sidebar(servers)[j]->index as int]),
    ensures
        ({
            let order = group_order(servers);
            let drawn = drawn_paths(order, order.len() as int);
            let above = headers_of(sidebar(servers).take(j));
            &&& above.len() <= drawn.len()
            &&& above == headers_for(drawn.take(above.len() as int))
            &&& drawn.take(above.len() as int).contains(x)
        }),
{
    let order = group_order(servers);
    let n = order.len() as int;
    let a = lemma_headers_above(servers, order, n, j);
    lemma_drawn_prefix(order, a + 1, n);
    lemma_drawn_paths(order, a + 1);
    assert(headers_for(drawn_paths(order, a + 1)).len() == drawn_paths(order, a + 1).len());
}

/// A row in characters and numbers is the row as it is.
pub proof fn law_row_view(row: SidebarRow)
    ensures
        match row {
            SidebarRow::Header { label, depth } => row.deep_view() == (RowView::Header {
                label: label@,
                depth,
            }),
            SidebarRow::Entry { index, name, depth } => row.deep_view() == (RowView::Entry {
                index,
                name: name@,
                depth,
            }),
        },
{
}

/// A row of a server shows that server: its index is one of the list, its name
/// is the whole name of the server there, and its depth is the number of
/// segments of that server's group, or 1 where it has none.
pub proof fn law_entry_shows_its_server(servers: Seq<ServerView>, j: int)
    requires
        servers.len() <= usize::MAX,
        0 <= j < sidebar(servers).len(),
        sidebar(servers)[j] is Entry,
    ensures
        ({
            let row = sidebar(servers)[j];
            let i = row->index as int;
            let n = groups::segments(servers[i].group).len();
            &&& 0 <= i < servers.len()
            &&& row->name == servers[i].name
            &&& n == 0 ==> row->Entry_depth == 1
            &&& 0 < n <= usize::MAX ==> row->Entry_depth == n
        }),
{
    law_entries_are_servers(servers, j);
    let i = sidebar(servers)[j]->index as int;
    groups::law_path_has_its_segments(servers[i].group);
}

/// A server that is counted among the rows stands in one of them.
proof fn lemma_counted_stands(rows: Seq<RowView>, i: int) -> (j: int)
    requires
        appearances(rows, i) > 0,
    ensures
        0 <= j < rows.len(),
        rows[j] is Entry,
        rows[j]->index == i,
    decreases rows.len(),
{
    let last = rows.last();
    if last is Entry && last->index == i {
        rows.len() - 1
    } else {
        let j = lemma_counted_stands(rows.drop_last(), i);
        assert(rows.drop_last()[j] == rows[j]);
        j
    }
}

/// Every server of the list has a row, and no second one.
pub proof fn law_server_has_one_row(servers: Seq<ServerView>, i: int) -> (j: int)
    requires
        0 <= i < servers.len() <= usize::MAX,
    ensures
        0 <= j < sidebar(servers).len(),
        sidebar(servers)[j] is Entry,
        sidebar(servers)[j]->index == i,
        forall|other: int|
            0 <= other < sidebar(servers).len() && (#[trigger] sidebar(servers)[other]) is Entry
                && sidebar(servers)[other]->index == i ==> other == j,
{
    law_every_server_listed_once(servers, i);
    let rows = sidebar(servers);
    let j = lemma_counted_stands(rows, i);
    assert forall|other: int|
        0 <= other < rows.len() && (#[trigger] rows[other]) is Entry && rows[other]->index
            == i implies other == j by {
        if other < j {
            law_row_order(servers, other, j);
        } else if j < other {
            law_row_order(servers, j, other);
        }
    }
    j
}

/// The rows of the servers follow the list. Of two servers of one group the
/// upper one comes first in the list; of two servers of different groups, the
/// upper one's group has a server in the list before any of the lower one's.
pub proof fn law_rows_follow_the_list(servers: Seq<ServerView>, upper: int, lower: int)
    requires
        servers.len() <= usize::MAX,
        0 <= upper < lower < sidebar(servers).len(),
        sidebar(servers)[upper] is Entry,
        sidebar(servers)[lower] is Entry,
    ensures
        ({
            let i = sidebar(servers)[upper]->index as int;
            let k = sidebar(servers)[lower]->index as int;
            let g = groups::group_path(servers[i].group);
            let h = groups::group_path(servers[k].group);
            &&& g == h ==> i < k
            &&& g != h ==> exists|a: int|
                0 <= a < servers.len() && groups::group_path((#[trigger] servers[a]).group) == g && (
                forall|b: int|
                    0 <= b <= a ==> groups::group_path((#[trigger] servers[b]).group) != h)
        }),
{
    law_row_order(servers, upper, lower);
    law_entry_shows_its_server(servers, upper);
    law_entry_shows_its_server(servers, lower);
    let i = sidebar(servers)[upper]->index as int;
    let k = sidebar(servers)[lower]->index as int;
    let names = server_groups(servers);
    assert(names[i] == groups::group_path(servers[i].group));
    assert(names[k] == groups::group_path(servers[k].group));
    if names[i] != names[k] {
        lemma_appears_before_in_list(servers, names[i], names[k]);
    }
}

/// A group that appears before another has a server before any of the other's.
proof fn lemma_appears_before_in_list(servers: Seq<ServerView>, g: Seq<char>, h: Seq<char>)
    requires
        appears_before(server_groups(servers), g, h),
    ensures
        exists|a: int|
            0 <= a < servers.len() && groups::group_path((#[trigger] servers[a]).group) == g && (
            forall|b: int|
                0 <= b <= a ==> groups::group_path((#[trigger] servers[b]).group) != h),
{
    let names = server_groups(servers);
    let a = choose|a: int|
        0 <= a < names.len() && #[trigger] names[a] == g && !names.take(a + 1).contains(h);
    let front = names.take(a + 1);
    assert forall|b: int| 0 <= b <= a implies groups::group_path((#[trigger] servers[b]).group)
        != h by {
        assert(front[b] == groups::group_path(servers[b].group));
    }
    assert(groups::group_path(servers[a].group) == g);
}

/// The groups in order are the group paths of the servers and no others, each
/// once; of two, the upper one has a server in the list before any of the lower
/// one's.
pub proof fn law_groups_follow_the_list(servers: Seq<ServerView>)
    ensures
        group_order(servers).no_duplicates(),
        forall|i: int|
            0 <= i < servers.len() ==> group_order(servers).contains(
                groups::group_path((#[trigger] servers[i]).group),
            ),
        forall|k: int|
            0 <= k < group_order(servers).len() ==> exists|i: int|
                0 <= i < servers.len() && groups::group_path((#[trigger] servers[i]).group)
                    == #[trigger] group_order(servers)[k],
        forall|j: int, k: int|
            0 <= j < k < group_order(servers).len() ==> exists|a: int|
                0 <= a < servers.len() && groups::group_path((#[trigger] servers[a]).group)
                    == #[trigger] group_order(servers)[j] && (forall|b: int|
                    0 <= b <= a ==> groups::group_path((#[trigger] servers[b]).group)
                        != #[trigger] group_order(servers)[k]),
{
    let order = group_order(servers);
    let names = server_groups(servers);
    law_groups_by_first_appearance(names);
    assert forall|i: int| 0 <= i < servers.len() implies order.contains(
        groups::group_path((#[trigger] servers[i]).group),
    ) by {
        assert(names.contains(names[i]));
    }
    assert forall|k: int| 0 <= k < order.len() implies exists|i: int|
        0 <= i < servers.len() && groups::group_path((#[trigger] servers[i]).group)
            == #[trigger] order[k] by {
        assert(order.contains(order[k]));
        let i = choose|i: int| 0 <= i < names.len() && names[i] == order[k];
        assert(groups::group_path(servers[i].group) == order[k]);
    }
    assert forall|j: int, k: int| 0 <= j < k < order.len() implies exists|a: int|
        0 <= a < servers.len() && groups::group_path((#[trigger] servers[a]).group)
            == #[trigger] order[j] && (forall|b: int|
            0 <= b <= a ==> groups::group_path((#[trigger] servers[b]).group)
                != #[trigger] order[k]) by {
        assert(appears_before(names, order[j], order[k]));
        lemma_appears_before_in_list(servers, order[j], order[k]);
    }
}

/// Where the headers stand among the rows.
proof fn lemma_header_positions(rows: Seq<RowView>) -> (at: Seq<int>)
    ensures
        at.len() == headers_of(rows).len(),
        forall|k: int|
            0 <= k < at.len() ==> {
                &&& 0 <= #[trigger] at[k] < rows.len()
                &&& rows[at[k]] is Header
                &&& rows[at[k]] == headers_of(rows)[k]
                &&& headers_of(rows.take(at[k])).len() == k
            },
        forall|h: int|
            0 <= h < rows.len() && (#[trigger] rows[h]) is Header ==> at.contains(h),
    decreases rows.len(),
{
    if rows.len() == 0 {
        Seq::empty()
    } else {
        let rest = rows.drop_last();
        let before = lemma_header_positions(rest);
        let at = if rows.last() is Header {
            before.push(rows.len() - 1)
        } else {
            before
        };
        assert(rows.take(rows.len() - 1) == rest);
        assert forall|k: int| 0 <= k < at.len() implies {
            &&& 0 <= #[trigger] at[k] < rows.len()
            &&& rows[at[k]] is Header
            &&& rows[at[k]] == headers_of(rows)[k]
            &&& headers_of(rows.take(at[k])).len() == k
        } by {
            if k < before.len() {
                assert(at[k] == before[k]);
                assert(rest[before[k]] == rows[at[k]]);
                assert(rows.take(at[k]) == rest.take(at[k]));
            }
        }
        assert forall|h: int| 0 <= h < rows.len() && (#[trigger] rows[h]) is Header implies at.contains(
            h,
        ) by {
            if h < rest.len() {
                assert(rest[h] == rows[h]);
                let k = choose|k: int| 0 <= k < before.len() && before[k] == h;
                assert(at[k] == h);
            } else {
                assert(at[before.len() as int] == h);
            }
        }
        at
    }
}

/// The group of `order` whose rows hold the header at `h`, and which of the
/// group's headers it is.
pub(crate) proof fn lemma_locate_header(
    servers: Seq<ServerView>,
    order: Seq<Seq<char>>,
    k: int,
    h: int,
) -> (at: (int, int))
    requires
        0 <= k <= order.len(),
        0 <= h < rows_upto(servers, order, k).len(),
        rows_upto(servers, order, k)[h] is Header,
    ensures
        ({
            let (a, t) = at;
            let all = rows_upto(servers, order, k);
            &&& 0 <= a < k
            &&& 0 <= t < heading(order, a).len()
            &&& h == rows_upto(servers, order, a).len() + t
            &&& all.take(h) == rows_upto(servers, order, a) + heading(order, a).take(t)
        }),
    decreases k,
{
    let all = rows_upto(servers, order, k);
    let above = rows_upto(servers, order, k - 1);
    if h < above.len() {
        assert(all.take(h) == above.take(h));
        lemma_locate_header(servers, order, k - 1, h)
    } else {
        let hs = heading(order, k - 1);
        let members = entries(servers, order[k - 1], servers.len() as int);
        let t = h - above.len();
        if t >= hs.len() {
            lemma_entries_only(servers, order[k - 1], servers.len() as int);
            assert(all[h] == members[t - hs.len()]);
        }
        assert(all.take(h) == above + hs.take(t));
        (k - 1, t)
    }
}

/// The rows of group `a` as they stand in the sidebar: its headers, then at
/// least one server, and that is one of its own.
pub(crate) proof fn lemma_group_in_sidebar(servers: Seq<ServerView>, a: int)
    requires
        servers.len() <= usize::MAX,
        0 <= a < group_order(servers).len(),
    ensures
        ({
            let order = group_order(servers);
            let rows = sidebar(servers);
            let from = rows_upto(servers, order, a).len() as int;
            let e = from + heading(order, a).len();
            &&& e < rows.len()
            &&& rows[e] is Entry
            &&& rows[e]->index < servers.len()
            &&& groups::group_path(servers[rows[e]->index as int].group) == order[a]
            &&& forall|x: int|
                from <= x < e ==> #[trigger] rows[x] == heading(order, a)[x - from]
        }),
{
    let order = group_order(servers);
    let names = server_groups(servers);
    let rows = sidebar(servers);
    let above = rows_upto(servers, order, a);
    let hs = heading(order, a);
    let members = entries(servers, order[a], servers.len() as int);
    law_groups_by_first_appearance(names);
    assert(order.contains(order[a]));
    let i = choose|i: int| 0 <= i < names.len() && names[i] == order[a];
    lemma_entries(servers, order[a], servers.len() as int, i);
    assert(members.len() > 0);
    lemma_rows_prefix(servers, order, a + 1, order.len() as int);
    let part = rows_upto(servers, order, a + 1);
    assert(part == above + (hs + members));
    let e = above.len() + hs.len();
    assert(part[e as int] == members[0]);
    assert(rows.take(part.len() as int)[e as int] == members[0]);
    assert forall|x: int| above.len() <= x < e implies #[trigger] rows[x] == hs[x
        - above.len()] by {
        assert(rows.take(part.len() as int)[x] == part[x]);
    }
}

/// `x` is the path of a header above group `g` exactly where its segments are
/// the first of the group's.
proof fn lemma_heads_is_prefix(x: Seq<char>, g: Seq<char>)
    ensures
        heads(x, g) <==> text::pieces(x, '/').is_prefix_of(text::pieces(g, '/')),
{
    let p = text::pieces(g, '/');
    let q = text::pieces(x, '/');
    if heads(x, g) {
        let d = choose|d: int| 0 <= d < p.len() && x == #[trigger] groups::header_path(p, d);
        groups::lemma_header_path_splits(g, d);
    }
    if q.is_prefix_of(p) {
        text::law_pieces_hold_no_separator(x, '/');
        text::law_join_undoes_split(x);
        assert(p.take(q.len() as int) == q);
        assert(x == groups::header_path(p, q.len() - 1));
    }
}

/// The headers form the tree of the groups. There is one for each path that
/// leads to a server, that is, whose segments are the first of that server's
/// group path, and no second one and no other; it shows the last segment of the
/// path in full, as deep as there are segments above it; it stands above every
/// server that its path leads to; and of those, one stands right below it and
/// the headers that follow it. `paths` are those paths from the top down, and
/// `at` is where their headers stand.
pub proof fn law_headers_form_the_tree(servers: Seq<ServerView>) -> (tree: (
    Seq<Seq<char>>,
    Seq<int>,
))
    requires
        servers.len() <= usize::MAX,
        forall|i: int|
            0 <= i < servers.len() ==> text::pieces(
                groups::group_path((#[trigger] servers[i]).group),
                '/',
            ).len() <= usize::MAX,
    ensures
        ({
            let (paths, at) = tree;
            let rows = sidebar(servers);
            &&& paths.no_duplicates()
            &&& at.len() == paths.len()
            &&& forall|x: Seq<char>| #[trigger]
                paths.contains(x) <==> exists|i: int|
                    0 <= i < servers.len() && text::pieces(x, '/').is_prefix_of(
                        text::pieces(groups::group_path((#[trigger] servers[i]).group), '/'),
                    )
            &&& forall|h: int|
                0 <= h < rows.len() && (#[trigger] rows[h]) is Header ==> at.contains(h)
            &&& forall|k: int|
                0 <= k < at.len() ==> {
                    let parts = text::pieces(paths[k], '/');
                    &&& 0 <= #[trigger] at[k] < rows.len()
                    &&& rows[at[k]] is Header
                    &&& rows[at[k]]->label == parts[parts.len() - 1]
                    &&& rows[at[k]]->Header_depth == parts.len() - 1
                    &&& exists|e: int|
                        at[k] < e < rows.len() && (#[trigger] rows[e]) is Entry && (forall|x: int|
                            at[k] <= x < e ==> (#[trigger] rows[x]) is Header)
                            && parts.is_prefix_of(
                            text::pieces(
                                groups::group_path(servers[rows[e]->index as int].group),
                                '/',
                            ),
                        )
                }
            &&& forall|j: int, k: int|
                0 <= j < rows.len() && (#[trigger] rows[j]) is Entry && 0 <= k < at.len()
                    && text::pieces(paths[k], '/').is_prefix_of(
                    text::pieces(groups::group_path(servers[rows[j]->index as int].group), '/'),
                ) ==> #[trigger] at[k] < j
        }),
{
    let order = group_order(servers);
    let n = order.len() as int;
    let names = server_groups(servers);
    let rows = sidebar(servers);
    let paths = drawn_paths(order, n);
    let at = lemma_header_positions(rows);
    law_headers_are_the_group_paths(servers);
    assert(headers_for(paths).len() == paths.len());
    assert forall|x: Seq<char>| #[trigger] paths.contains(x) <==> exists|i: int|
        0 <= i < servers.len() && text::pieces(x, '/').is_prefix_of(
            text::pieces(groups::group_path((#[trigger] servers[i]).group), '/'),
        ) by {
        if paths.contains(x) {
            let i = choose|i: int| 0 <= i < servers.len() && heads(x, #[trigger] names[i]);
            lemma_heads_is_prefix(x, names[i]);
            assert(names[i] == groups::group_path(servers[i].group));
        }
        if exists|i: int|
            0 <= i < servers.len() && text::pieces(x, '/').is_prefix_of(
                text::pieces(groups::group_path((#[trigger] servers[i]).group), '/'),
            ) {
            let i = choose|i: int|
                0 <= i < servers.len() && text::pieces(x, '/').is_prefix_of(
                    text::pieces(groups::group_path((#[trigger] servers[i]).group), '/'),
                );
            assert(names[i] == groups::group_path(servers[i].group));
            lemma_heads_is_prefix(x, names[i]);
            assert(heads(x, names[i]));
        }
    }
    assert forall|k: int| 0 <= k < at.len() implies {
        let parts = text::pieces(paths[k], '/');
        &&& 0 <= #[trigger] at[k] < rows.len()
        &&& rows[at[k]] is Header
        &&& rows[at[k]]->label == parts[parts.len() - 1]
        &&& rows[at[k]]->Header_depth == parts.len() - 1
        &&& exists|e: int|
            at[k] < e < rows.len() && (#[trigger] rows[e]) is Entry && (forall|x: int|
                at[k] <= x < e ==> (#[trigger] rows[x]) is Header) && parts.is_prefix_of(
                text::pieces(groups::group_path(servers[rows[e]->index as int].group), '/'),
            )
    } by {
        lemma_header_in_the_tree(servers, at[k], k);
    }
    assert forall|j: int, k: int|
        0 <= j < rows.len() && (#[trigger] rows[j]) is Entry && 0 <= k < at.len() && text::pieces(
            paths[k],
            '/',
        ).is_prefix_of(
            text::pieces(groups::group_path(servers[rows[j]->index as int].group), '/'),
        ) implies #[trigger] at[k] < j by {
        law_entry_shows_its_server(servers, j);
        let i = rows[j]->index as int;
        assert(names[i] == groups::group_path(servers[i].group));
        lemma_heads_is_prefix(paths[k], names[i]);
        law_server_below_its_headers(servers, j, paths[k]);
        let above = headers_of(rows.take(j));
        let front = paths.take(above.len() as int);
        let m = choose|m: int| 0 <= m < front.len() && front[m] == paths[k];
        assert(paths[m] == paths[k]);
        assert(m == k);
        if at[k] >= j {
            assert(rows.take(at[k]) == rows.take(j) + rows.subrange(j, at[k]));
            lemma_headers_of_concat(rows.take(j), rows.subrange(j, at[k]));
        }
    }
    (paths, at)
}

/// The header at `h`, above which there are `k`, in the tree of the groups.
proof fn lemma_header_in_the_tree(servers: Seq<ServerView>, h: int, k: int)
    requires
        servers.len() <= usize::MAX,
        forall|i: int|
            0 <= i < servers.len() ==> text::pieces(
                groups::group_path((#[trigger] servers[i]).group),
                '/',
            ).len() <= usize::MAX,
        0 <= h < sidebar(servers).len(),
        sidebar(servers)[h] is Header,
        headers_of(sidebar(servers).take(h)).len() == k,
    ensures
        ({
            let order = group_order(servers);
            let rows = sidebar(servers);
            let parts = text::pieces(drawn_paths(order, order.len() as int)[k], '/');
            &&& rows[h]->label == parts[parts.len() - 1]
            &&& rows[h]->Header_depth == parts.len() - 1
            &&& exists|e: int|
                h < e < rows.len() && (#[trigger] rows[e]) is Entry && (forall|x: int|
                    h <= x < e ==> (#[trigger] rows[x]) is Header) && parts.is_prefix_of(
                    text::pieces(groups::group_path(servers[rows[e]->index as int].group), '/'),
                )
        }),
{
    let order = group_order(servers);
    let n = order.len() as int;
    let rows = sidebar(servers);
    let (a, t) = lemma_locate_header(servers, order, n, h);
    let above = rows_upto(servers, order, a);
    let hs = heading(order, a);
    lemma_group_in_sidebar(servers, a);
    let e = above.len() + hs.len();
    let own = text::pieces(order[a], '/');
    let i = rows[e as int]->index as int;
    assert(text::pieces(groups::group_path(servers[i].group), '/').len() <= usize::MAX);
    let drawn = drawn_paths(order, a);
    let out = groups::missing_headers(own, drawn, own.len() as int);
    let new = groups::missing_paths(own, drawn, own.len() as int);
    groups::lemma_missing_headers(own, drawn, own.len() as int);
    lemma_headers_of_rows(servers, order, a);
    assert forall|x: int| 0 <= x < t implies (#[trigger] hs.take(t)[x]) is Header by {}
    lemma_all_headers(hs.take(t));
    lemma_headers_of_concat(above, hs.take(t));
    assert(k == drawn.len() + t);
    lemma_drawn_prefix(order, a + 1, n);
    let all = drawn_paths(order, n);
    assert(all.take(drawn_paths(order, a + 1).len() as int)[k] == new[t]);
    let d = out[t].1 as int;
    assert(rows[h] == hs[t]);
    assert(all[k] == groups::header_path(own, d));
    groups::lemma_header_path_splits(order[a], d);
    let parts = text::pieces(all[k], '/');
    assert(parts == own.take(d + 1));
    assert(parts.is_prefix_of(own)) by {
        assert(own.subrange(0, d + 1) == own.take(d + 1));
    }
    assert forall|x: int| h <= x < e implies (#[trigger] rows[x]) is Header by {
        assert(rows[x] == hs[x - above.len()]);
    }
    assert(rows[e as int] is Entry);
}

} // verus!
