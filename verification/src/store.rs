//! The credential store: a collection of user records with mapping
//! semantics, keyed by the lowercase username, and the login decision
//! made against it.

use vstd::prelude::*;

use crate::user::LoginAction;
use crate::user::LoginRole;
use crate::user::User;
use crate::user::UserData;
use crate::user::ascii_lower;
use crate::user::ascii_only;
use crate::user::hash_password;
use crate::user::lower_of;
use crate::user::lowercase;
use crate::user::sha224_hex_of;

verus! {

/// Errors a store operation can surface: unreadable persisted state,
/// malformed persisted state, or an absent target username.
#[derive(Debug, Clone, Copy, PartialEq, Eq, Structural)]
pub enum StoreError {
    IoError,
    DeserializationError,
    NotFound,
}

/// The model of a sequence of records.
pub open spec fn users_view(v: Seq<User>) -> Seq<UserData> {
    v.map_values(|u: User| u@)
}

/// Some record carries this username.
pub open spec fn contains_username(users: Seq<UserData>, name: Seq<char>) -> bool {
    exists|i: int| 0 <= i < users.len() && users[i].username == name
}

/// The index of the record carrying this username (meaningful only when
/// `contains_username` holds; unique once the usernames are distinct).
pub open spec fn username_index(users: Seq<UserData>, name: Seq<char>) -> int {
    choose|i: int| 0 <= i < users.len() && users[i].username == name
}

/// The record carrying this username.
pub open spec fn user_for(users: Seq<UserData>, name: Seq<char>) -> UserData {
    users[username_index(users, name)]
}

/// Mapping semantics: no two records share a username.
pub open spec fn distinct_usernames(users: Seq<UserData>) -> bool {
    forall|i: int, j: int|
        0 <= i < j < users.len() ==> users[i].username != users[j].username
}

/// With distinct usernames, a matching index is the unique one that
/// `username_index` denotes.
pub proof fn lemma_index_unique(users: Seq<UserData>, name: Seq<char>, i: int)
    requires
        distinct_usernames(users),
        0 <= i < users.len(),
        users[i].username == name,
    ensures
        contains_username(users, name),
        username_index(users, name) == i,
{
    assert(contains_username(users, name));
    let j = username_index(users, name);
    if i < j {
        assert(users[i].username != users[j].username);
    }
    if j < i {
        assert(users[j].username != users[i].username);
    }
}

/// The credential store: user records under mapping semantics. Its view is
/// the sequence of record models, in insertion order.
#[derive(Debug)]
pub struct UserStore {
    users: Vec<User>,
}

impl View for UserStore {
    type V = Seq<UserData>;

    closed spec fn view(&self) -> Seq<UserData> {
        users_view(self.users@)
    }
}

impl UserStore {
    /// Well-formed: mapping semantics hold.
    pub open spec fn wf(&self) -> bool {
        distinct_usernames(self@)
    }

    /// Wraps a vector of records whose usernames are distinct.
    pub fn from_records(users: Vec<User>) -> (r: UserStore)
        requires
            distinct_usernames(users_view(users@)),
        ensures
            r@ == users_view(users@),
            r.wf(),
    {
        UserStore { users }
    }

    /// The records, in insertion order.
    pub fn records(&self) -> (r: &Vec<User>)
        ensures
            users_view(r@) == self@,
    {
        &self.users
    }

    /// How many records the store holds.
    pub fn len(&self) -> (n: usize)
        ensures
            n == self@.len(),
    {
        self.users.len()
    }
}

/// What a login decision returns: nothing for an unknown username, access
/// with the stored role when the digest matches, a denial when it does not.
pub open spec fn login_outcome(
    users: Seq<UserData>,
    name: Seq<char>,
    digest: Seq<char>,
) -> Option<LoginAction> {
    if !contains_username(users, name) {
        None
    } else if user_for(users, name).password == digest {
        Some(LoginAction::Granted(user_for(users, name).role))
    } else {
        Some(LoginAction::Denied)
    }
}

/// Decides a login attempt: normalizes the username, hashes the password,
/// and looks the user up. No side effects.
pub fn login(users: &UserStore, username: &str, password: &str) -> (r: Option<LoginAction>)
    requires
        users.wf(),
    ensures
        r == login_outcome(users@, lower_of(username@), sha224_hex_of(password@)),
        ascii_only(username@) ==> r == login_outcome(
            users@,
            ascii_lower(username@),
            sha224_hex_of(password@),
        ),
{
    let name = lowercase(username);
    let digest = hash_password(password);
    let n = users.users.len();
    let mut i: usize = 0;
    while i < n
        invariant
            users.wf(),
            n == users@.len(),
            i <= n,
            name@ == lower_of(username@),
            ascii_only(username@) ==> name@ == ascii_lower(username@),
            digest@ == sha224_hex_of(password@),
            forall|k: int| 0 <= k < i ==> users@[k].username != name@,
        decreases n - i,
    {
        if users.users[i].username == name {
            proof {
                lemma_index_unique(users@, name@, i as int);
            }
            if users.users[i].password == digest {
                return Some(LoginAction::Granted(users.users[i].role));
            } else {
                return Some(LoginAction::Denied);
            }
        }
        i += 1;
    }
    None
}

/// What inserting a record leaves behind: an existing record with the same
/// username is overwritten in place, otherwise the record is appended.
pub open spec fn spec_add(users: Seq<UserData>, u: UserData) -> Seq<UserData> {
    if contains_username(users, u.username) {
        users.update(username_index(users, u.username), u)
    } else {
        users.push(u)
    }
}

/// What deleting a username leaves behind: the record is removed when
/// present, otherwise nothing changes.
pub open spec fn spec_delete(users: Seq<UserData>, name: Seq<char>) -> Seq<UserData> {
    if contains_username(users, name) {
        users.remove(username_index(users, name))
    } else {
        users
    }
}

/// What changing a password leaves behind: only the targeted record's
/// digest is replaced; every other record is unchanged.
pub open spec fn spec_change_password(
    users: Seq<UserData>,
    name: Seq<char>,
    digest: Seq<char>,
) -> Seq<UserData> {
    if contains_username(users, name) {
        let i = username_index(users, name);
        users.update(i, (UserData { password: digest, ..users[i] }))
    } else {
        users
    }
}

/// Finds the index of the record whose username equals `name`, if any.
fn find_index(users: &Vec<User>, name: &String) -> (r: Option<usize>)
    requires
        distinct_usernames(users_view(users@)),
    ensures
        match r {
            Some(i) => i < users@.len() && users@[i as int]@.username == name@
                && contains_username(users_view(users@), name@)
                && username_index(users_view(users@), name@) == i,
            None => !contains_username(users_view(users@), name@),
        },
{
    let n = users.len();
    let mut i: usize = 0;
    while i < n
        invariant
            distinct_usernames(users_view(users@)),
            n == users@.len(),
            i <= n,
            forall|k: int| 0 <= k < i ==> users_view(users@)[k].username != name@,
        decreases n - i,
    {
        if users[i].username == *name {
            proof {
                lemma_index_unique(users_view(users@), name@, i as int);
            }
            return Some(i);
        }
        i += 1;
    }
    None
}

/// Inserts or overwrites a user: the record is keyed by the normalized
/// (lowercase) username; the admin flag selects the role, non-admin by
/// default.
pub fn add_users(users: &mut UserStore, username: &str, password: &str, admin: bool)
    requires
        old(users).wf(),
    ensures
        final(users).wf(),
        final(users)@ == spec_add(
            old(users)@,
            (UserData {
                username: lower_of(username@),
                password: sha224_hex_of(password@),
                role: if admin {
                    LoginRole::Admin
                } else {
                    LoginRole::User
                },
            }),
        ),
        ascii_only(username@) ==> final(users)@ == spec_add(
            old(users)@,
            (UserData {
                username: ascii_lower(username@),
                password: sha224_hex_of(password@),
                role: if admin {
                    LoginRole::Admin
                } else {
                    LoginRole::User
                },
            }),
        ),
{
    let role = if admin {
        LoginRole::Admin
    } else {
        LoginRole::User
    };
    let user = User::new(username, password, role);
    let ghost u = user@;
    let ghost before = users@;
    match find_index(&users.users, &user.username) {
        Some(i) => {
            users.users.remove(i);
            users.users.insert(i, user);
            proof {
                assert(users@ =~= before.update(i as int, u));
                assert forall|p: int, q: int|
                    0 <= p < q < users@.len() implies users@[p].username
                    != users@[q].username by {
                    assert(before[p].username != before[q].username);
                }
            }
        },
        None => {
            users.users.push(user);
            proof {
                assert(users@ =~= before.push(u));
                assert forall|p: int, q: int|
                    0 <= p < q < users@.len() implies users@[p].username
                    != users@[q].username by {
                    if q < before.len() {
                        assert(before[p].username != before[q].username);
                    } else {
                        assert(!contains_username(before, u.username));
                        assert(before[p].username != u.username);
                    }
                }
            }
        },
    }
}

/// Removes a user if present; an absent username is reported as
/// [`StoreError::NotFound`] and nothing changes.
pub fn delete_user(users: &mut UserStore, username: &str) -> (r: Result<(), StoreError>)
    requires
        old(users).wf(),
    ensures
        final(users).wf(),
        final(users)@ == spec_delete(old(users)@, lower_of(username@)),
        r is Ok <==> contains_username(old(users)@, lower_of(username@)),
        r is Err ==> r == Err::<(), StoreError>(StoreError::NotFound),
        ascii_only(username@) ==> final(users)@ == spec_delete(
            old(users)@,
            ascii_lower(username@),
        ),
        ascii_only(username@) ==> (r is Ok <==> contains_username(
            old(users)@,
            ascii_lower(username@),
        )),
{
    let name = lowercase(username);
    let ghost before = users@;
    match find_index(&users.users, &name) {
        Some(i) => {
            users.users.remove(i);
            proof {
                assert(users@ =~= before.remove(i as int));
                assert forall|p: int, q: int|
                    0 <= p < q < users@.len() implies users@[p].username
                    != users@[q].username by {
                    let p0 = if p < i as int { p } else { p + 1 };
                    let q0 = if q < i as int { q } else { q + 1 };
                    assert(before[p0].username != before[q0].username);
                }
            }
            Ok(())
        },
        None => Err(StoreError::NotFound),
    }
}

/// Replaces the stored digest of a user with the digest of the new
/// password; an absent username is reported as [`StoreError::NotFound`]
/// and nothing changes. Every other record is left untouched.
pub fn change_password(users: &mut UserStore, username: &str, new_password: &str) -> (r: Result<
    (),
    StoreError,
>)
    requires
        old(users).wf(),
    ensures
        final(users).wf(),
        final(users)@ == spec_change_password(
            old(users)@,
            lower_of(username@),
            sha224_hex_of(new_password@),
        ),
        r is Ok <==> contains_username(old(users)@, lower_of(username@)),
        r is Err ==> r == Err::<(), StoreError>(StoreError::NotFound),
        ascii_only(username@) ==> final(users)@ == spec_change_password(
            old(users)@,
            ascii_lower(username@),
            sha224_hex_of(new_password@),
        ),
        ascii_only(username@) ==> (r is Ok <==> contains_username(
            old(users)@,
            ascii_lower(username@),
        )),
{
    let name = lowercase(username);
    let ghost before = users@;
    match find_index(&users.users, &name) {
        Some(i) => {
            let mut user = users.users.remove(i);
            user.password = hash_password(new_password);
            let ghost u = user@;
            users.users.insert(i, user);
            proof {
                assert(users@ =~= before.update(i as int, u));
                assert(u =~= (UserData {
                    password: sha224_hex_of(new_password@),
                    ..before[i as int]
                }));
                assert forall|p: int, q: int|
                    0 <= p < q < users@.len() implies users@[p].username
                    != users@[q].username by {
                    assert(before[p].username != before[q].username);
                }
            }
            Ok(())
        },
        None => Err(StoreError::NotFound),
    }
}

/// The seeded administrator account: `admin`, role `Admin`, seed password.
pub open spec fn spec_admin_seed() -> UserData {
    UserData { username: "admin"@, password: sha224_hex_of("password"@), role: LoginRole::Admin }
}

/// The seeded ordinary account: `bob`, role `User`, the same seed password.
pub open spec fn spec_bob_seed() -> UserData {
    UserData { username: "bob"@, password: sha224_hex_of("password"@), role: LoginRole::User }
}

/// The two seed accounts materialized when no persisted state exists.
pub open spec fn spec_default_users() -> Seq<UserData> {
    seq![spec_admin_seed(), spec_bob_seed()]
}

/// The seed usernames are ASCII, already lowercase, and distinct.
pub proof fn lemma_seed_usernames()
    ensures
        ascii_only("admin"@),
        ascii_lower("admin"@) == "admin"@,
        ascii_only("bob"@),
        ascii_lower("bob"@) == "bob"@,
        "admin"@ != "bob"@,
{
    reveal_strlit("admin");
    reveal_strlit("bob");
    assert(ascii_lower("admin"@) =~= "admin"@);
    assert(ascii_lower("bob"@) =~= "bob"@);
}

/// The two seed accounts, as a vector.
pub fn get_users_vec() -> (r: Vec<User>)
    ensures
        users_view(r@) == spec_default_users(),
{
    proof {
        lemma_seed_usernames();
    }
    let admin = User::new("admin", "password", LoginRole::Admin);
    let bob = User::new("bob", "password", LoginRole::User);
    let mut v: Vec<User> = Vec::new();
    v.push(admin);
    v.push(bob);
    proof {
        assert(users_view(v@) =~= spec_default_users());
    }
    v
}

/// The two seed accounts, as a store.
pub fn get_default_users() -> (r: UserStore)
    ensures
        r@ == spec_default_users(),
        r.wf(),
{
    let v = get_users_vec();
    proof {
        lemma_seed_usernames();
        assert forall|p: int, q: int|
            0 <= p < q < users_view(v@).len() implies users_view(v@)[p].username
            != users_view(v@)[q].username by {
        }
    }
    UserStore::from_records(v)
}

/// Law: on the freshly-seeded store, logging in as `admin` with the seed
/// password is granted `Admin` access.
pub proof fn lemma_seed_admin_login()
    ensures
        ascii_only("admin"@),
        ascii_lower("admin"@) == "admin"@,
        login_outcome(spec_default_users(), "admin"@, sha224_hex_of("password"@)) == Some(
            LoginAction::Granted(LoginRole::Admin),
        ),
{
    lemma_seed_usernames();
    lemma_index_unique(spec_default_users(), "admin"@, 0);
}

/// Law: on the freshly-seeded store, logging in as `bob` with the seed
/// password is granted `User` access.
pub proof fn lemma_seed_bob_login()
    ensures
        ascii_only("bob"@),
        ascii_lower("bob"@) == "bob"@,
        login_outcome(spec_default_users(), "bob"@, sha224_hex_of("password"@)) == Some(
            LoginAction::Granted(LoginRole::User),
        ),
{
    lemma_seed_usernames();
    lemma_index_unique(spec_default_users(), "bob"@, 1);
}

/// Law: on the freshly-seeded store, an `admin` login with any password
/// whose digest differs from the seeded one is denied.
pub proof fn lemma_seed_admin_wrong_password(digest: Seq<char>)
    requires
        digest != sha224_hex_of("password"@),
    ensures
        login_outcome(spec_default_users(), "admin"@, digest) == Some(LoginAction::Denied),
{
    lemma_seed_usernames();
    lemma_index_unique(spec_default_users(), "admin"@, 0);
}

/// Law: on the freshly-seeded store, a login under `nosuchuser` yields no
/// outcome, whatever the password digest.
pub proof fn lemma_seed_unknown_user(digest: Seq<char>)
    ensures
        ascii_only("nosuchuser"@),
        ascii_lower("nosuchuser"@) == "nosuchuser"@,
        login_outcome(spec_default_users(), "nosuchuser"@, digest) == None::<LoginAction>,
{
    lemma_seed_usernames();
    reveal_strlit("nosuchuser");
    reveal_strlit("admin");
    reveal_strlit("bob");
    assert(ascii_lower("nosuchuser"@) =~= "nosuchuser"@);
    assert forall|i: int|
        0 <= i < spec_default_users().len() implies spec_default_users()[i].username
        != "nosuchuser"@ by {
        assert("admin"@.len() == 5);
        assert("bob"@.len() == 3);
        assert("nosuchuser"@.len() == 10);
    }
}

/// Law: deleting an absent username changes nothing, so deleting it twice
/// reports the absence both times and never mutates the store.
pub proof fn lemma_delete_absent_idempotent(users: Seq<UserData>, name: Seq<char>)
    requires
        !contains_username(users, name),
    ensures
        spec_delete(users, name) == users,
        spec_delete(spec_delete(users, name), name) == users,
{
}

} // verus!
