//! The persisted form of the store: one line per record, the three fields
//! separated by tabs, the role written as one of two literal tags. The
//! username and digest fields are escaped so that any string round-trips.
//! Parsing rejects malformed lines, bad escapes and duplicate usernames, so
//! whatever it accepts is a well-formed store, and any well-formed store
//! serializes to text that parses back to exactly that store.

use vstd::prelude::*;
use vstd::string::StrSliceExecFns;
use vstd::string::StringExecFns;

use crate::store::StoreError;
use crate::store::UserStore;
use crate::store::contains_username;
use crate::store::distinct_usernames;
use crate::store::spec_default_users;
use crate::store::get_default_users;
use crate::store::users_view;
use crate::user::LoginRole;
use crate::user::User;
use crate::user::UserData;

verus! {

/// The character `c` occurs nowhere in `s`.
pub open spec fn free_of(s: Seq<char>, c: char) -> bool {
    forall|i: int| 0 <= i < s.len() ==> #[trigger] s[i] != c
}

/// How one character is written inside a field: the separators and the
/// backslash get a two-character escape, everything else stands as itself.
pub open spec fn esc_char(c: char) -> Seq<char> {
    if c == '\\' {
        seq!['\\', '\\']
    } else if c == '\t' {
        seq!['\\', 't']
    } else if c == '\n' {
        seq!['\\', 'n']
    } else {
        seq![c]
    }
}

/// How a whole field is written: each character escaped, in order.
pub open spec fn esc(s: Seq<char>) -> Seq<char>
    decreases s.len(),
{
    if s.len() == 0 {
        Seq::empty()
    } else {
        esc_char(s[0]) + esc(s.drop_first())
    }
}

/// The string a written field denotes, if its escapes are well-formed.
pub open spec fn unesc(s: Seq<char>) -> Option<Seq<char>>
    decreases s.len(),
{
    if s.len() == 0 {
        Some(Seq::empty())
    } else if s[0] == '\\' {
        if s.len() == 1 {
            None
        } else {
            let decoded = if s[1] == '\\' {
                Some('\\')
            } else if s[1] == 't' {
                Some('\t')
            } else if s[1] == 'n' {
                Some('\n')
            } else {
                None
            };
            match decoded {
                None => None,
                Some(d) => match unesc(s.skip(2)) {
                    None => None,
                    Some(tail) => Some(seq![d] + tail),
                },
            }
        }
    } else {
        match unesc(s.drop_first()) {
            None => None,
            Some(tail) => Some(seq![s[0]] + tail),
        }
    }
}

/// The literal tag a role is written as.
pub open spec fn spec_role_tag(role: LoginRole) -> Seq<char> {
    match role {
        LoginRole::Admin => "Admin"@,
        LoginRole::User => "User"@,
    }
}

/// The role a literal tag denotes, if any.
pub open spec fn spec_role_of_tag(tag: Seq<char>) -> Option<LoginRole> {
    if tag == "Admin"@ {
        Some(LoginRole::Admin)
    } else if tag == "User"@ {
        Some(LoginRole::User)
    } else {
        None
    }
}

/// One record's line: escaped username, escaped digest and role tag,
/// tab-separated, closed by a newline.
pub open spec fn spec_render_user(u: UserData) -> Seq<char> {
    esc(u.username) + seq!['\t'] + esc(u.password) + seq!['\t'] + spec_role_tag(u.role)
        + seq!['\n']
}

/// The whole store's text: the records' lines, in order.
pub open spec fn spec_render(users: Seq<UserData>) -> Seq<char>
    decreases users.len(),
{
    if users.len() == 0 {
        Seq::empty()
    } else {
        spec_render_user(users[0]) + spec_render(users.drop_first())
    }
}

/// The position of the first occurrence of `c` in `t`, if any.
pub open spec fn spec_find(t: Seq<char>, c: char) -> Option<int>
    decreases t.len(),
{
    if t.len() == 0 {
        None
    } else if t[0] == c {
        Some(0)
    } else {
        match spec_find(t.drop_first(), c) {
            None => None,
            Some(j) => Some(j + 1),
        }
    }
}

/// The record one line denotes, if the line is well-formed: two
/// tab-separated escaped fields followed by a role tag.
pub open spec fn spec_parse_line(line: Seq<char>) -> Option<UserData> {
    match spec_find(line, '\t') {
        None => None,
        Some(a) => {
            let rest = line.subrange(a + 1, line.len() as int);
            match spec_find(rest, '\t') {
                None => None,
                Some(b) => {
                    let tag = rest.subrange(b + 1, rest.len() as int);
                    match spec_role_of_tag(tag) {
                        None => None,
                        Some(role) => match (unesc(line.subrange(0, a)), unesc(
                            rest.subrange(0, b),
                        )) {
                            (Some(username), Some(password)) => Some(
                                UserData { username, password, role },
                            ),
                            _ => None,
                        },
                    }
                },
            }
        },
    }
}

/// The store a text denotes, if every line is well-formed and no username
/// repeats.
pub open spec fn spec_parse(t: Seq<char>) -> Option<Seq<UserData>>
    decreases t.len() via spec_parse_decreases
{
    if t.len() == 0 {
        Some(Seq::empty())
    } else {
        match spec_find(t, '\n') {
            None => None,
            Some(j) => {
                let line = t.subrange(0, j);
                let rest = t.subrange(j + 1, t.len() as int);
                match spec_parse_line(line) {
                    None => None,
                    Some(u) => match spec_parse(rest) {
                        None => None,
                        Some(us) => if contains_username(us, u.username) {
                            None
                        } else {
                            Some(seq![u] + us)
                        },
                    },
                }
            },
        }
    }
}

#[via_fn]
proof fn spec_parse_decreases(t: Seq<char>) {
    if t.len() != 0 {
        lemma_spec_find_props(t, '\n');
    }
}

/// `spec_find` names the first occurrence: in range, hitting `c`, with no
/// earlier occurrence; and it finds one whenever one exists.
pub proof fn lemma_spec_find_props(t: Seq<char>, c: char)
    ensures
        match spec_find(t, c) {
            Some(j) => 0 <= j < t.len() && t[j] == c && forall|k: int| 0 <= k < j ==> t[k] != c,
            None => free_of(t, c),
        },
    decreases t.len(),
{
    if t.len() != 0 && t[0] != c {
        lemma_spec_find_props(t.drop_first(), c);
        match spec_find(t.drop_first(), c) {
            Some(j) => {
                assert(t.drop_first()[j] == t[j + 1]);
                assert forall|k: int| 0 <= k < j + 1 implies t[k] != c by {
                    if k >= 1 {
                        assert(t.drop_first()[k - 1] == t[k]);
                    }
                }
            },
            None => {
                assert forall|k: int| 0 <= k < t.len() implies #[trigger] t[k] != c by {
                    if k >= 1 {
                        assert(t.drop_first()[k - 1] == t[k]);
                    }
                }
            },
        }
    }
}

/// Finding `c` just past a stretch that lacks it: the first occurrence in
/// `a + [c] + b` stands exactly after `a`.
pub proof fn lemma_find_concat(a: Seq<char>, b: Seq<char>, c: char)
    requires
        free_of(a, c),
    ensures
        spec_find(a + seq![c] + b, c) == Some(a.len() as int),
    decreases a.len(),
{
    let t = a + seq![c] + b;
    if a.len() == 0 {
        assert(t[0] == c);
    } else {
        assert(t[0] == a[0]);
        assert(t[0] != c);
        assert(t.drop_first() =~= a.drop_first() + seq![c] + b);
        assert(free_of(a.drop_first(), c)) by {
            assert(forall|k: int|
                0 <= k < a.drop_first().len() ==> #[trigger] a.drop_first()[k] == a[k + 1]);
        }
        lemma_find_concat(a.drop_first(), b, c);
    }
}

/// A concatenation is free of `c` when both parts are.
pub proof fn lemma_free_concat(a: Seq<char>, b: Seq<char>, c: char)
    requires
        free_of(a, c),
        free_of(b, c),
    ensures
        free_of(a + b, c),
{
    assert forall|i: int| 0 <= i < (a + b).len() implies #[trigger] (a + b)[i] != c by {
        if i < a.len() {
            assert((a + b)[i] == a[i]);
        } else {
            assert((a + b)[i] == b[i - a.len()]);
        }
    }
}

/// An escaped field holds no separator: every escape sequence spells the
/// separator out with ordinary characters.
pub proof fn lemma_esc_free(s: Seq<char>)
    ensures
        free_of(esc(s), '\t'),
        free_of(esc(s), '\n'),
    decreases s.len(),
{
    if s.len() != 0 {
        lemma_esc_free(s.drop_first());
        assert(free_of(esc_char(s[0]), '\t'));
        assert(free_of(esc_char(s[0]), '\n'));
        lemma_free_concat(esc_char(s[0]), esc(s.drop_first()), '\t');
        lemma_free_concat(esc_char(s[0]), esc(s.drop_first()), '\n');
    }
}

/// Escaping distributes over concatenation.
pub proof fn lemma_esc_concat(a: Seq<char>, b: Seq<char>)
    ensures
        esc(a + b) == esc(a) + esc(b),
    decreases a.len(),
{
    if a.len() == 0 {
        assert(a + b =~= b);
        assert(esc(a) + esc(b) =~= esc(b));
    } else {
        assert((a + b)[0] == a[0]);
        assert((a + b).drop_first() =~= a.drop_first() + b);
        lemma_esc_concat(a.drop_first(), b);
        assert(esc_char(a[0]) + (esc(a.drop_first()) + esc(b)) =~= (esc_char(a[0]) + esc(
        a.drop_first())) + esc(b));
    }
}

/// Unescaping inverts escaping: every string round-trips through its
/// written form.
pub proof fn lemma_unesc_esc(s: Seq<char>)
    ensures
        unesc(esc(s)) == Some(s),
    decreases s.len(),
{
    if s.len() == 0 {
    } else {
        let c = s[0];
        let tail = s.drop_first();
        let t = esc(s);
        lemma_unesc_esc(tail);
        if c == '\\' || c == '\t' || c == '\n' {
            assert(t[0] == '\\');
            assert(t.len() >= 2);
            assert(t[1] == esc_char(c)[1]);
            assert(t.skip(2) =~= esc(tail));
            assert(seq![c] + tail =~= s);
        } else {
            assert(t[0] == c);
            assert(t.drop_first() =~= esc(tail));
            assert(seq![c] + tail =~= s);
        }
    }
}

/// The two role tags: distinct, free of separators, and decoded back to
/// the role they stand for.
pub proof fn lemma_role_tags()
    ensures
        forall|role: LoginRole| #[trigger]
            spec_role_of_tag(spec_role_tag(role)) == Some(role),
        forall|role: LoginRole| free_of(#[trigger] spec_role_tag(role), '\t'),
        forall|role: LoginRole| free_of(#[trigger] spec_role_tag(role), '\n'),
{
    reveal_strlit("Admin");
    reveal_strlit("User");
    assert("Admin"@.len() == 5);
    assert("User"@.len() == 4);
    assert forall|role: LoginRole| free_of(#[trigger] spec_role_tag(role), '\t') && free_of(
        spec_role_tag(role),
        '\n',
    ) by {
        match role {
            LoginRole::Admin => {
                assert(free_of("Admin"@, '\t'));
                assert(free_of("Admin"@, '\n'));
            },
            LoginRole::User => {
                assert(free_of("User"@, '\t'));
                assert(free_of("User"@, '\n'));
            },
        }
    }
}

/// Rendering distributes over concatenation of record sequences.
pub proof fn lemma_render_concat(a: Seq<UserData>, b: Seq<UserData>)
    ensures
        spec_render(a + b) == spec_render(a) + spec_render(b),
    decreases a.len(),
{
    if a.len() == 0 {
        assert(a + b =~= b);
        assert(spec_render(a) + spec_render(b) =~= spec_render(b));
    } else {
        assert((a + b).len() != 0);
        assert((a + b)[0] == a[0]);
        assert((a + b).drop_first() =~= a.drop_first() + b);
        lemma_render_concat(a.drop_first(), b);
        assert(spec_render_user(a[0]) + (spec_render(a.drop_first()) + spec_render(b)) =~= (
        spec_render_user(a[0]) + spec_render(a.drop_first())) + spec_render(b));
    }
}

/// A single record renders as its line.
pub proof fn lemma_render_one(u: UserData)
    ensures
        spec_render(seq![u]) == spec_render_user(u),
{
    assert(seq![u].drop_first() =~= Seq::<UserData>::empty());
    assert(spec_render_user(u) + spec_render(Seq::<UserData>::empty()) =~= spec_render_user(u));
}

/// Relies on `String::push`: appends the given character to the end of the
/// string.
#[verifier::external_body]
fn push_char(s: &mut String, c: char)
    ensures
        final(s)@ == old(s)@ + seq![c],
{
    s.push(c)
}

/// Writes one field in its escaped form.
fn escape_field(s: &str) -> (r: String)
    ensures
        r@ == esc(s@),
{
    let n = s.unicode_len();
    let mut out = String::new();
    proof {
        assert(s@.take(0) =~= Seq::<char>::empty());
    }
    let mut i: usize = 0;
    while i < n
        invariant
            i <= n,
            n == s@.len(),
            out@ == esc(s@.take(i as int)),
        decreases n - i,
    {
        let ghost before = out@;
        let c = s.get_char(i);
        if c == '\\' {
            out.append("\\\\");
        } else if c == '\t' {
            out.append("\\t");
        } else if c == '\n' {
            out.append("\\n");
        } else {
            push_char(&mut out, c);
        }
        proof {
            reveal_strlit("\\\\");
            reveal_strlit("\\t");
            reveal_strlit("\\n");
            assert(out@ =~= before + esc_char(s@[i as int]));
            lemma_esc_concat(s@.take(i as int), seq![s@[i as int]]);
            assert(s@.take(i + 1 as int) =~= s@.take(i as int) + seq![s@[i as int]]);
            assert(esc_char(s@[i as int]) + esc(Seq::<char>::empty()) =~= esc_char(
                s@[i as int],
            ));
            assert(seq![s@[i as int]].drop_first() =~= Seq::<char>::empty());
        }
        i += 1;
    }
    proof {
        assert(s@.take(n as int) =~= s@);
    }
    out
}

/// Reads one field back from its escaped form.
fn unescape_field(s: &str) -> (r: Option<String>)
    ensures
        match r {
            Some(out) => unesc(s@) == Some(out@),
            None => unesc(s@) is None,
        },
{
    let n = s.unicode_len();
    let mut out = String::new();
    proof {
        assert(s@.skip(0) =~= s@);
    }
    let mut i: usize = 0;
    while i < n
        invariant
            i <= n,
            n == s@.len(),
            match unesc(s@.skip(i as int)) {
                Some(tail) => unesc(s@) == Some(out@ + tail),
                None => unesc(s@) is None,
            },
        decreases n - i,
    {
        let ghost pre = s@.skip(i as int);
        let ghost before = out@;
        let c = s.get_char(i);
        proof {
            assert(pre[0] == s@[i as int]);
        }
        if c == '\\' {
            if i + 1 == n {
                proof {
                    assert(pre.len() == 1);
                }
                return None;
            }
            let d = s.get_char(i + 1);
            proof {
                assert(pre[1] == s@[i + 1]);
            }
            let decoded: char;
            if d == '\\' {
                decoded = '\\';
            } else if d == 't' {
                decoded = '\t';
            } else if d == 'n' {
                decoded = '\n';
            } else {
                return None;
            }
            push_char(&mut out, decoded);
            proof {
                assert(pre.skip(2) =~= s@.skip(i + 2));
                if unesc(s@.skip(i + 2)) is Some {
                    let tail = unesc(s@.skip(i + 2))->Some_0;
                    assert(unesc(pre) == Some(seq![decoded] + tail));
                    assert(before + (seq![decoded] + tail) =~= (before + seq![decoded]) + tail);
                }
            }
            i += 2;
        } else {
            push_char(&mut out, c);
            proof {
                assert(pre.drop_first() =~= s@.skip(i + 1));
                if unesc(s@.skip(i + 1)) is Some {
                    let tail = unesc(s@.skip(i + 1))->Some_0;
                    assert(unesc(pre) == Some(seq![c] + tail));
                    assert(before + (seq![c] + tail) =~= (before + seq![c]) + tail);
                }
            }
            i += 1;
        }
    }
    proof {
        assert(s@.skip(n as int) =~= Seq::<char>::empty());
        assert(out@ + Seq::<char>::empty() =~= out@);
    }
    Some(out)
}

/// Finds the first occurrence of `c` in `s`.
fn find_char(s: &str, c: char) -> (r: Option<usize>)
    ensures
        match r {
            Some(j) => spec_find(s@, c) == Some(j as int),
            None => spec_find(s@, c) is None,
        },
{
    let n = s.unicode_len();
    let mut i: usize = 0;
    while i < n
        invariant
            i <= n,
            n == s@.len(),
            forall|k: int| 0 <= k < i ==> s@[k] != c,
        decreases n - i,
    {
        if s.get_char(i) == c {
            proof {
                lemma_spec_find_props(s@, c);
            }
            return Some(i);
        }
        i += 1;
    }
    proof {
        lemma_spec_find_props(s@, c);
    }
    None
}

/// Decodes a role tag.
fn role_of_tag(tag: &str) -> (r: Option<LoginRole>)
    ensures
        r == spec_role_of_tag(tag@),
{
    let t = String::from_str(tag);
    if t == String::from_str("Admin") {
        Some(LoginRole::Admin)
    } else if t == String::from_str("User") {
        Some(LoginRole::User)
    } else {
        None
    }
}

/// Encodes a role as its tag.
fn role_tag(role: LoginRole) -> (r: &'static str)
    ensures
        r@ == spec_role_tag(role),
{
    match role {
        LoginRole::Admin => "Admin",
        LoginRole::User => "User",
    }
}

/// Parses one record's line (the text between two newlines).
fn parse_line(line: &str) -> (r: Option<User>)
    ensures
        match r {
            Some(u) => spec_parse_line(line@) == Some(u@),
            None => spec_parse_line(line@) is None,
        },
{
    let n = line.unicode_len();
    let a = match find_char(line, '\t') {
        Some(a) => a,
        None => {
            return None;
        },
    };
    proof {
        lemma_spec_find_props(line@, '\t');
    }
    let rest = line.substring_char(a + 1, n);
    let m = rest.unicode_len();
    let b = match find_char(rest, '\t') {
        Some(b) => b,
        None => {
            return None;
        },
    };
    proof {
        lemma_spec_find_props(rest@, '\t');
    }
    let tag = rest.substring_char(b + 1, m);
    let role = match role_of_tag(tag) {
        Some(role) => role,
        None => {
            return None;
        },
    };
    let username = match unescape_field(line.substring_char(0, a)) {
        Some(u) => u,
        None => {
            return None;
        },
    };
    let password = match unescape_field(rest.substring_char(0, b)) {
        Some(p) => p,
        None => {
            return None;
        },
    };
    let u = User { username, password, role };
    proof {
        assert(spec_parse_line(line@) matches Some(d) && d =~= u@);
    }
    Some(u)
}

/// True when some record in the vector carries this username.
fn contains_user(users: &Vec<User>, name: &String) -> (b: bool)
    ensures
        b == contains_username(users_view(users@), name@),
{
    let n = users.len();
    let mut i: usize = 0;
    while i < n
        invariant
            i <= n,
            n == users@.len(),
            forall|k: int| 0 <= k < i ==> users_view(users@)[k].username != name@,
        decreases n - i,
    {
        if users[i].username == *name {
            assert(users_view(users@)[i as int].username == name@);
            return true;
        }
        i += 1;
    }
    false
}

/// Parses the whole text, line by line, rejecting duplicate usernames.
fn parse_users_rec(text: &str) -> (r: Option<Vec<User>>)
    ensures
        match r {
            Some(v) => spec_parse(text@) == Some(users_view(v@)),
            None => spec_parse(text@) is None,
        },
    decreases text@.len(),
{
    let n = text.unicode_len();
    if n == 0 {
        let v: Vec<User> = Vec::new();
        proof {
            assert(users_view(v@) =~= Seq::<UserData>::empty());
        }
        return Some(v);
    }
    let j = match find_char(text, '\n') {
        Some(j) => j,
        None => {
            return None;
        },
    };
    proof {
        lemma_spec_find_props(text@, '\n');
    }
    let line = text.substring_char(0, j);
    let rest = text.substring_char(j + 1, n);
    let u = match parse_line(line) {
        Some(u) => u,
        None => {
            return None;
        },
    };
    let mut v = match parse_users_rec(rest) {
        Some(v) => v,
        None => {
            return None;
        },
    };
    if contains_user(&v, &u.username) {
        return None;
    }
    let ghost us = users_view(v@);
    let ghost ud = u@;
    v.insert(0, u);
    proof {
        assert(users_view(v@) =~= seq![ud] + us);
    }
    Some(v)
}

/// Serializes the whole store: every record's line, in order. The text of
/// any well-formed store parses back to exactly that store.
pub fn save_users(users: &UserStore) -> (text: String)
    ensures
        text@ == spec_render(users@),
{
    let recs = users.records();
    let n = recs.len();
    let mut text = String::new();
    proof {
        assert(users@.take(0) =~= Seq::<UserData>::empty());
    }
    let mut i: usize = 0;
    while i < n
        invariant
            n == recs@.len(),
            users_view(recs@) == users@,
            i <= n,
            text@ == spec_render(users@.take(i as int)),
        decreases n - i,
    {
        let ghost before = text@;
        let username = escape_field(recs[i].username.as_str());
        let password = escape_field(recs[i].password.as_str());
        text.append(username.as_str());
        text.append("\t");
        text.append(password.as_str());
        text.append("\t");
        text.append(role_tag(recs[i].role));
        text.append("\n");
        proof {
            reveal_strlit("\t");
            reveal_strlit("\n");
            let u = users@[i as int];
            assert("\t"@ =~= seq!['\t']);
            assert("\n"@ =~= seq!['\n']);
            assert(text@ =~= before + spec_render_user(u));
            lemma_render_concat(users@.take(i as int), seq![u]);
            lemma_render_one(u);
            assert(users@.take(i + 1 as int) =~= users@.take(i as int) + seq![u]);
        }
        i += 1;
    }
    proof {
        assert(users@.take(n as int) =~= users@);
    }
    text
}

/// Materializes the store from the persisted text, or seeds it. `None`
/// stands for absent persisted state and yields the two seed accounts;
/// present text is parsed, and malformed text is rejected as a
/// deserialization error.
pub fn get_users(content: Option<&str>) -> (r: Result<UserStore, StoreError>)
    ensures
        match content {
            None => r matches Ok(s) && s@ == spec_default_users() && s.wf(),
            Some(t) => match r {
                Ok(s) => spec_parse(t@) == Some(s@) && s.wf(),
                Err(e) => e == StoreError::DeserializationError && spec_parse(t@) is None,
            },
        },
{
    match content {
        None => Ok(get_default_users()),
        Some(t) => match parse_users_rec(t) {
            Some(v) => {
                proof {
                    lemma_parse_distinct(t@);
                }
                Ok(UserStore::from_records(v))
            },
            None => Err(StoreError::DeserializationError),
        },
    }
}

/// Whatever the parser accepts keeps mapping semantics: its usernames are
/// distinct.
pub proof fn lemma_parse_distinct(t: Seq<char>)
    ensures
        spec_parse(t) matches Some(us) ==> distinct_usernames(us),
    decreases t.len(),
{
    if t.len() != 0 && spec_parse(t) is Some {
        lemma_spec_find_props(t, '\n');
        let j = spec_find(t, '\n')->Some_0;
        let line = t.subrange(0, j);
        let rest = t.subrange(j + 1, t.len() as int);
        let u = spec_parse_line(line)->Some_0;
        let tail = spec_parse(rest)->Some_0;
        lemma_parse_distinct(rest);
        let us = spec_parse(t)->Some_0;
        assert(us == seq![u] + tail);
        assert forall|p: int, q: int|
            0 <= p < q < us.len() implies us[p].username != us[q].username by {
            if p == 0 {
                assert(us[q] == tail[q - 1]);
                assert(!(0 <= q - 1 < tail.len() && tail[q - 1].username == u.username));
            } else {
                assert(us[p] == tail[p - 1]);
                assert(us[q] == tail[q - 1]);
            }
        }
    }
}

/// Law: serializing a well-formed store and parsing the text back yields
/// exactly that store — same usernames, same digests, same roles, in the
/// same order.
pub proof fn lemma_render_parse_roundtrip(users: Seq<UserData>)
    requires
        distinct_usernames(users),
    ensures
        spec_parse(spec_render(users)) == Some(users),
    decreases users.len(),
{
    if users.len() == 0 {
        assert(spec_render(users) =~= Seq::<char>::empty());
        assert(users =~= Seq::<UserData>::empty());
    } else {
        lemma_role_tags();
        let u = users[0];
        let tail = users.drop_first();
        let tag = spec_role_tag(u.role);
        let eun = esc(u.username);
        let epw = esc(u.password);
        let head = eun + seq!['\t'] + epw + seq!['\t'] + tag;
        let t = spec_render(users);
        lemma_esc_free(u.username);
        lemma_esc_free(u.password);
        lemma_unesc_esc(u.username);
        lemma_unesc_esc(u.password);
        assert(free_of(seq!['\t'], '\n'));
        lemma_free_concat(eun, seq!['\t'], '\n');
        lemma_free_concat(eun + seq!['\t'], epw, '\n');
        lemma_free_concat(eun + seq!['\t'] + epw, seq!['\t'], '\n');
        lemma_free_concat(eun + seq!['\t'] + epw + seq!['\t'], tag, '\n');
        assert(t == spec_render_user(u) + spec_render(tail));
        assert(spec_render_user(u) == head + seq!['\n']);
        lemma_find_concat(head, spec_render(tail), '\n');
        let j = head.len() as int;
        assert(spec_find(t, '\n') == Some(j));
        let line = t.subrange(0, j);
        let rest = t.subrange(j + 1, t.len() as int);
        assert(line =~= head);
        assert(rest =~= spec_render(tail));
        // the head line parses back to the record
        assert(head =~= (eun + seq!['\t']) + (epw + seq!['\t'] + tag));
        lemma_find_concat(eun, epw + seq!['\t'] + tag, '\t');
        let a1 = eun.len() as int;
        assert(spec_find(head, '\t') == Some(a1));
        let rest1 = head.subrange(a1 + 1, head.len() as int);
        assert(rest1 =~= epw + seq!['\t'] + tag);
        lemma_find_concat(epw, tag, '\t');
        let b1 = epw.len() as int;
        assert(spec_find(rest1, '\t') == Some(b1));
        assert(rest1.subrange(b1 + 1, rest1.len() as int) =~= tag);
        assert(head.subrange(0, a1) =~= eun);
        assert(rest1.subrange(0, b1) =~= epw);
        assert(spec_parse_line(line) matches Some(p) && p =~= u);
        // the remaining lines parse back to the remaining records
        assert(distinct_usernames(tail)) by {
            assert forall|p: int, q: int|
                0 <= p < q < tail.len() implies tail[p].username != tail[q].username by {
                assert(users[p + 1].username != users[q + 1].username);
            }
        }
        lemma_render_parse_roundtrip(tail);
        assert(!contains_username(tail, u.username)) by {
            assert forall|k: int| 0 <= k < tail.len() implies tail[k].username != u.username by {
                assert(users[0].username != users[k + 1].username);
            }
        }
        assert(spec_parse(t) == Some(seq![u] + tail));
        assert(seq![u] + tail =~= users);
    }
}

/// Law: persisted text that loads, saves back to text that loads to the
/// identical store — saving after loading is a fixed point.
pub proof fn lemma_save_load_fixed_point(t: Seq<char>)
    ensures
        spec_parse(t) matches Some(us) ==> spec_parse(spec_render(us)) == Some(us),
{
    lemma_parse_distinct(t);
    if spec_parse(t) is Some {
        lemma_render_parse_roundtrip(spec_parse(t)->Some_0);
    }
}

/// Law: a password change rewrites only the targeted record's line; the
/// rendered text before and after that line — every other record's bytes —
/// is unchanged.
pub proof fn lemma_change_password_renders_frame(users: Seq<UserData>, i: int, digest: Seq<char>)
    requires
        0 <= i < users.len(),
    ensures
        ({
            let changed = users.update(i, (UserData { password: digest, ..users[i] }));
            &&& spec_render(users) == spec_render(users.take(i)) + spec_render_user(users[i])
                + spec_render(users.skip(i + 1))
            &&& spec_render(changed) == spec_render(users.take(i)) + spec_render_user(changed[i])
                + spec_render(users.skip(i + 1))
        }),
{
    let changed = users.update(i, (UserData { password: digest, ..users[i] }));
    let x = users.take(i);
    let z = users.skip(i + 1);
    assert(users =~= x + (seq![users[i]] + z));
    lemma_render_concat(x, seq![users[i]] + z);
    lemma_render_concat(seq![users[i]], z);
    lemma_render_one(users[i]);
    assert(spec_render(users) =~= spec_render(x) + spec_render_user(users[i]) + spec_render(z));
    assert(changed =~= x + (seq![changed[i]] + z));
    lemma_render_concat(x, seq![changed[i]] + z);
    lemma_render_concat(seq![changed[i]], z);
    lemma_render_one(changed[i]);
    assert(spec_render(changed) =~= spec_render(x) + spec_render_user(changed[i]) + spec_render(
        z,
    ));
}

} // verus!
