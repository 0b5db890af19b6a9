//! Servers and the list of them: adding, editing and deleting.

use vstd::prelude::*;

verus! {

/// A server to connect to.
#[derive(Debug, PartialEq)]
pub struct Server {
    pub name: String,
    pub host: String,
    pub user: String,
    /// Group path such as `prod/db`. Empty: no group.
    pub group: String,
    /// Empty: no password.
    pub password: String,
    /// Path to a private key file for `ssh -i`. Empty: no key file.
    pub keyfile: String,
}

/// What a `Server` holds, as sequences of characters.
pub struct ServerView {
    pub name: Seq<char>,
    pub host: Seq<char>,
    pub user: Seq<char>,
    pub group: Seq<char>,
    pub password: Seq<char>,
    pub keyfile: Seq<char>,
}

impl View for Server {
    type V = ServerView;

    open spec fn view(&self) -> ServerView {
        ServerView {
            name: self.name@,
            host: self.host@,
            user: self.user@,
            group: self.group@,
            password: self.password@,
            keyfile: self.keyfile@,
        }
    }
}

impl DeepView for Server {
    type V = ServerView;

    open spec fn deep_view(&self) -> ServerView {
        self@
    }
}

/// The server with every field empty.
pub open spec fn blank() -> ServerView {
    ServerView {
        name: Seq::empty(),
        host: Seq::empty(),
        user: Seq::empty(),
        group: Seq::empty(),
        password: Seq::empty(),
        keyfile: Seq::empty(),
    }
}

impl Clone for Server {
    fn clone(&self) -> (r: Self)
        ensures
            r@ == self@,
    {
        Server {
            name: self.name.clone(),
            host: self.host.clone(),
            user: self.user.clone(),
            group: self.group.clone(),
            password: self.password.clone(),
            keyfile: self.keyfile.clone(),
        }
    }
}

impl Default for Server {
    fn default() -> (r: Self)
        ensures
            r@ == blank(),
    {
        Server {
            name: String::new(),
            host: String::new(),
            user: String::new(),
            group: String::new(),
            password: String::new(),
            keyfile: String::new(),
        }
    }
}

/// Whether a form can be stored as a server: it has a name and a host.
pub open spec fn complete(s: ServerView) -> bool {
    s.name.len() > 0 && s.host.len() > 0
}

/// The list after the edit form for `edit` was confirmed with `s`.
pub open spec fn edited(
    list: Seq<ServerView>,
    edit: Option<usize>,
    s: ServerView,
) -> Seq<ServerView> {
    if !complete(s) {
        list
    } else {
        match edit {
            Some(i) if i < list.len() => list.update(i as int, s),
            _ => list.push(s),
        }
    }
}

/// The list after the server at `idx` was deleted.
pub open spec fn deleted(list: Seq<ServerView>, idx: usize) -> Seq<ServerView> {
    if idx < list.len() {
        list.remove(idx as int)
    } else {
        list
    }
}

/// The server at `idx`, or the blank one.
pub open spec fn server_at(list: Seq<ServerView>, idx: Option<usize>) -> ServerView {
    match idx {
        Some(i) if i < list.len() => list[i as int],
        _ => blank(),
    }
}

/// Confirms the edit form: `edit` is the index of the server being edited, or
/// `None` for a new one. A form without a name or a host changes nothing; an
/// index beyond the list adds a server. Returns whether the form was stored, so
/// that the list has to be saved.
pub fn apply_edit(list: &mut Vec<Server>, edit: Option<usize>, s: Server) -> (stored: bool)
    ensures
        final(list).deep_view() == edited(old(list).deep_view(), edit, s@),
        stored == complete(s@),
{
    if s.name.as_str().is_empty() || s.host.as_str().is_empty() {
        return false;
    }
    match edit {
        Some(i) if i < list.len() => {
            list.set(i, s);
        },
        _ => {
            list.push(s);
        },
    }
    true
}

/// Deletes the server at `idx`. Returns whether there was one.
pub fn delete_server(list: &mut Vec<Server>, idx: usize) -> (removed: bool)
    ensures
        final(list).deep_view() == deleted(old(list).deep_view(), idx),
        removed == (idx < old(list).deep_view().len()),
{
    if idx < list.len() {
        list.remove(idx);
        true
    } else {
        false
    }
}

/// What the edit form starts with: the server being edited, or blank fields.
pub fn edit_form(list: &Vec<Server>, edit: Option<usize>) -> (r: Server)
    ensures
        r@ == server_at(list.deep_view(), edit),
{
    match edit {
        Some(i) if i < list.len() => {
            assert(list.deep_view()[i as int] == list[i as int]@);
            list[i].clone()
        },
        _ => Server::default(),
    }
}

/// The title of the edit form.
pub fn edit_title(edit: Option<usize>) -> (r: String)
    ensures
        r@ == (if edit is Some {
            "Edit Server"@
        } else {
            "Add Server"@
        }),
{
    match edit {
        Some(_) => "Edit Server".to_owned(),
        None => "Add Server".to_owned(),
    }
}

/// The question asked before the server at `idx` is deleted.
pub fn delete_prompt(list: &Vec<Server>, idx: usize) -> (r: String)
    ensures
        r@ == "Delete \""@ + server_at(list.deep_view(), Some(idx)).name + "\"?"@,
{
    let target = edit_form(list, Some(idx));
    let mut r = "Delete \"".to_owned();
    r.append(target.name.as_str());
    r.append("\"?");
    r
}

/// Deleting the server that was added last restores the list.
pub proof fn law_delete_undoes_add(list: Seq<ServerView>, s: ServerView)
    requires
        complete(s),
        list.len() <= usize::MAX,
    ensures
        deleted(edited(list, None, s), list.len() as usize) == list,
{
    assert(list.push(s).remove(list.len() as int) == list);
}

/// Editing or adding leaves every other server as it was, in its place.
pub proof fn law_edit_keeps_others(
    list: Seq<ServerView>,
    edit: Option<usize>,
    s: ServerView,
    j: int,
)
    requires
        0 <= j < list.len(),
        edit != Some(j as usize) || j > usize::MAX,
    ensures
        edited(list, edit, s).len() >= list.len(),
        edited(list, edit, s)[j] == list[j],
{
}

/// Deleting a server leaves the others, in their order.
pub proof fn law_delete_keeps_others(list: Seq<ServerView>, idx: usize, j: int)
    requires
        idx < list.len(),
        0 <= j < list.len() - 1,
    ensures
        deleted(list, idx).len() == list.len() - 1,
        deleted(list, idx)[j] == list[if j < idx {
            j
        } else {
            j + 1
        }],
{
}

/// An edit can be undone: editing the server back to what it was restores
/// the list.
pub proof fn law_edit_back(list: Seq<ServerView>, i: usize, s: ServerView)
    requires
        i < list.len(),
        complete(list[i as int]),
    ensures
        edited(edited(list, Some(i), s), Some(i), list[i as int]) == list,
{
    assert(list.update(i as int, s).update(i as int, list[i as int]) == list);
}

/// A list whose servers all have a name and a host keeps that property under
/// every edit and every deletion.
pub proof fn law_servers_stay_complete(
    list: Seq<ServerView>,
    edit: Option<usize>,
    s: ServerView,
    idx: usize,
)
    requires
        forall|i: int| 0 <= i < list.len() ==> complete(#[trigger] list[i]),
    ensures
        forall|i: int|
            0 <= i < edited(list, edit, s).len() ==> complete(#[trigger] edited(list, edit, s)[i]),
        forall|i: int|
            0 <= i < deleted(list, idx).len() ==> complete(#[trigger] deleted(list, idx)[i]),
{
}

/// What a server holds is what its fields hold, each as it is.
pub proof fn law_server_view(s: Server)
    ensures
        s@.name == s.name@,
        s@.host == s.host@,
        s@.user == s.user@,
        s@.group == s.group@,
        s@.password == s.password@,
        s@.keyfile == s.keyfile@,
        s.deep_view() == s@,
{
}

/// What was typed is what is stored. A form with a name and a host that is
/// confirmed for a server of the list takes that server's place; confirmed for
/// a new one, or for an index beyond the list, it comes last. Either way the
/// server in that place is the form in every field, and the rest of the list
/// is as it was.
pub proof fn law_form_is_stored(list: Seq<ServerView>, edit: Option<usize>, s: ServerView)
    requires
        s.name.len() > 0,
        s.host.len() > 0,
    ensures
        ({
            let after = edited(list, edit, s);
            let at = match edit {
                Some(i) if i < list.len() => i as int,
                _ => list.len() as int,
            };
            &&& after.len() == (if at < list.len() {
                list.len()
            } else {
                list.len() + 1
            })
            &&& after[at].name == s.name
            &&& after[at].host == s.host
            &&& after[at].user == s.user
            &&& after[at].group == s.group
            &&& after[at].password == s.password
            &&& after[at].keyfile == s.keyfile
            &&& forall|j: int| 0 <= j < list.len() && j != at ==> #[trigger] after[j] == list[j]
        }),
{
}

/// A form can be stored exactly where it has a name and a host; one that lacks
/// either leaves the list as it was.
pub proof fn law_incomplete_form_changes_nothing(
    list: Seq<ServerView>,
    edit: Option<usize>,
    s: ServerView,
)
    ensures
        complete(s) <==> s.name.len() > 0 && s.host.len() > 0,
        s.name.len() == 0 || s.host.len() == 0 ==> edited(list, edit, s) == list,
{
}

/// Deleting at an index beyond the list changes nothing.
pub proof fn law_delete_beyond_the_list(list: Seq<ServerView>, idx: usize)
    requires
        idx >= list.len(),
    ensures
        deleted(list, idx) == list,
{
}

/// The form shows the server that is edited, in every field; for a new server,
/// or an index beyond the list, all six fields are empty.
pub proof fn law_form_shows_the_server(list: Seq<ServerView>, idx: Option<usize>)
    ensures
        ({
            let shown = server_at(list, idx);
            match idx {
                Some(i) if i < list.len() => {
                    let s = list[i as int];
                    &&& shown.name == s.name
                    &&& shown.host == s.host
                    &&& shown.user == s.user
                    &&& shown.group == s.group
                    &&& shown.password == s.password
                    &&& shown.keyfile == s.keyfile
                },
                _ => shown.name.len() + shown.host.len() + shown.user.len() + shown.group.len()
                    + shown.password.len() + shown.keyfile.len() == 0,
            }
        }),
{
}

/// Opening the form of a server and confirming it as it is changes nothing.
pub proof fn law_confirming_unchanged_form(list: Seq<ServerView>, i: usize)
    requires
        i < list.len(),
    ensures
        edited(list, Some(i), server_at(list, Some(i))) == list,
{
    assert(list.update(i as int, list[i as int]) == list);
}

} // verus!
