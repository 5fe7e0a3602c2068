use std::collections::HashMap;
use vstd::prelude::*;
use vstd::string::StringExecFns;

verus! {

broadcast use vstd::std_specs::hash::group_hash_axioms;

/// The voice channel that punished users are sent to.
pub const SHADOW_REALM_CHANNEL_ID: u64 = 215294075090370560;

/// The role that keeps a punished user in the shadow realm.
pub const BANISHED_ROLE_ID: u64 = 583472301199327242;

/// Why the users of a command cannot be punished.
#[derive(PartialEq, Eq, Structural, Debug, Clone, Copy)]
pub enum CommandError {
    GuildNotFound,
    UserNotInVoice,
    AuthorNotInVoice,
}

/// What is done to a user for the time of the punishment.
#[derive(PartialEq, Eq, Structural, Debug, Clone, Copy)]
pub enum Punishment {
    /// The author is moved to the shadow realm and back.
    MoveToShadowRealm,
    /// Another user gets the banishment role and is moved to the shadow realm,
    /// then loses the role and is moved back.
    Banish,
}

/// A command names users to punish when it has arguments and mentions.
pub fn has_targets(args: usize, mentions: usize) -> (r: bool)
    ensures
        r == (args != 0 && mentions != 0),
{
    args != 0 && mentions != 0
}

/// The punishment of `user` when `author` gave the command.
pub open spec fn punishment_of(user: u64, author: u64) -> Punishment {
    if user == author {
        Punishment::MoveToShadowRealm
    } else {
        Punishment::Banish
    }
}

/// The author, and only the author, is moved to the shadow realm; every
/// other user is banished.
pub proof fn lemma_punishment_of(user: u64, author: u64)
    ensures
        (punishment_of(user, author) == Punishment::MoveToShadowRealm) == (user == author),
        (punishment_of(user, author) == Punishment::Banish) == (user != author),
{
}

/// Each user with their channel and their punishment, in the order given.
pub fn plan_punishments(users: &Vec<(u64, u64)>, author: u64) -> (r: Vec<(u64, u64, Punishment)>)
    ensures
        r@.len() == users@.len(),
        forall|i: int|
            0 <= i < users@.len() ==> #[trigger] r@[i] == (
                users@[i].0,
                users@[i].1,
                punishment_of(users@[i].0, author),
            ),
        forall|i: int|
            0 <= i < users@.len() ==> ((#[trigger] r@[i]).2 == Punishment::MoveToShadowRealm
                <==> users@[i].0 == author),
        forall|i: int|
            0 <= i < users@.len() ==> ((#[trigger] r@[i]).2 == Punishment::Banish <==> users@[i].0
                != author),
{
    proof {
        assert forall|u: u64| #![auto] (punishment_of(u, author) == Punishment::MoveToShadowRealm <==> u == author) && (punishment_of(u, author) == Punishment::Banish <==> u != author) by {
            lemma_punishment_of(u, author);
        }
    }
    let mut out: Vec<(u64, u64, Punishment)> = Vec::new();
    let mut i: usize = 0;
    while i < users.len()
        invariant
            i <= users@.len(),
            out@.len() == i,
            forall|j: int|
                0 <= j < i ==> #[trigger] out@[j] == (
                    users@[j].0,
                    users@[j].1,
                    punishment_of(users@[j].0, author),
                ),
        decreases users@.len() - i,
    {
        let (user, channel) = users[i];
        let p = if user == author {
            Punishment::MoveToShadowRealm
        } else {
            Punishment::Banish
        };
        out.push((user, channel, p));
        i = i + 1;
    }
    out
}

/// The voice channel a user is connected to, given the guild's voice
/// states (user to channel, when the user has one).
pub open spec fn voice_channel(states: Map<u64, Option<u64>>, user: u64) -> Option<u64> {
    if states.contains_key(user) {
        states[user]
    } else {
        None
    }
}

/// The users other than `author` that are in a voice channel, each with
/// that channel, in the order given.
pub open spec fn users_in_voice(states: Map<u64, Option<u64>>, author: u64, users: Seq<u64>) -> Seq<
    (u64, u64),
>
    decreases users.len(),
{
    if users.len() == 0 {
        Seq::empty()
    } else {
        let rest = users_in_voice(states, author, users.drop_last());
        let u = users.last();
        if u == author {
            rest
        } else {
            match voice_channel(states, u) {
                Some(c) => rest.push((u, c)),
                None => rest,
            }
        }
    }
}

/// The users to punish with their current channels, the author last; or
/// why there are none.
pub open spec fn voice_states_of(
    guild: Option<Map<u64, Option<u64>>>,
    author: u64,
    users: Seq<u64>,
) -> Result<Seq<(u64, u64)>, CommandError> {
    match guild {
        None => Err(CommandError::GuildNotFound),
        Some(states) => match voice_channel(states, author) {
            None => Err(CommandError::AuthorNotInVoice),
            Some(c) => {
                let found = users_in_voice(states, author, users);
                if found.len() == 0 {
                    Err(CommandError::UserNotInVoice)
                } else {
                    Ok(found.push((author, c)))
                }
            },
        },
    }
}

proof fn lemma_users_in_voice(states: Map<u64, Option<u64>>, author: u64, users: Seq<u64>)
    ensures
        forall|i: int|
            0 <= i < users.len() && users[i] != author && states.contains_key(users[i])
                && states[users[i]] is Some ==> users_in_voice(states, author, users).contains(
                (#[trigger] users[i], states[users[i]].unwrap()),
            ),
        forall|j: int|
            0 <= j < users_in_voice(states, author, users).len() ==> {
                let e = #[trigger] users_in_voice(states, author, users)[j];
                &&& users.contains(e.0)
                &&& e.0 != author
                &&& states.contains_key(e.0)
                &&& states[e.0] == Some(e.1)
            },
        users_in_voice(states, author, users).len() == 0 <==> !exists|i: int|
            0 <= i < users.len() && #[trigger] users[i] != author && states.contains_key(users[i])
                && states[users[i]] is Some,
    decreases users.len(),
{
    if users.len() > 0 {
        let d = users.drop_last();
        lemma_users_in_voice(states, author, d);
        let rest = users_in_voice(states, author, d);
        let r = users_in_voice(states, author, users);
        let u = users.last();
        let in_voice = u != author && states.contains_key(u) && states[u] is Some;
        if in_voice {
            assert(r == rest.push((u, states[u].unwrap())));
        } else {
            assert(r == rest);
        }
        assert forall|i: int|
            0 <= i < users.len() && users[i] != author && states.contains_key(users[i])
                && states[users[i]] is Some implies r.contains(
            (#[trigger] users[i], states[users[i]].unwrap()),
        ) by {
            if i < d.len() {
                assert(d[i] == users[i]);
                let j = choose|j: int| 0 <= j < rest.len() && rest[j] == (d[i], states[d[i]].unwrap());
                assert(r[j] == rest[j]);
            } else {
                assert(r[r.len() - 1] == (u, states[u].unwrap()));
            }
        }
        assert forall|j: int| 0 <= j < r.len() implies {
            let e = #[trigger] r[j];
            &&& users.contains(e.0)
            &&& e.0 != author
            &&& states.contains_key(e.0)
            &&& states[e.0] == Some(e.1)
        } by {
            if j < rest.len() {
                assert(r[j] == rest[j]);
                let k = choose|k: int| 0 <= k < d.len() && d[k] == rest[j].0;
                assert(users[k] == d[k]);
            } else {
                assert(users[users.len() - 1] == u);
            }
        }
        if r.len() == 0 {
            assert(!in_voice);
            assert forall|i: int| 0 <= i < users.len() implies !(#[trigger] users[i] != author
                && states.contains_key(users[i]) && states[users[i]] is Some) by {
                if i < d.len() {
                    assert(d[i] == users[i]);
                }
            }
        } else {
            let e = r[0];
            let k = choose|k: int| 0 <= k < users.len() && users[k] == e.0;
            assert(users[k] != author && states.contains_key(users[k]) && states[users[k]] is Some);
        }
    }
}

/// When the author is in a voice channel, the command fails for want of
/// users exactly when no mentioned user other than the author is in a voice
/// channel; when it succeeds, every mentioned user other than the author
/// that is in a voice channel is listed with that channel, whatever the
/// author's channel, and every listed user but the last (the author) is such
/// a user with their channel.
pub proof fn lemma_voice_states_complete(states: Map<u64, Option<u64>>, author: u64, users: Seq<u64>)
    ensures
        (states.contains_key(author) && states[author] is Some) ==> (voice_states_of(
            Some(states),
            author,
            users,
        ) is Ok <==> exists|i: int|
            0 <= i < users.len() && #[trigger] users[i] != author && states.contains_key(users[i])
                && states[users[i]] is Some),
        voice_states_of(Some(states), author, users) matches Ok(v) ==> forall|i: int|
            0 <= i < users.len() && users[i] != author && states.contains_key(users[i])
                && states[users[i]] is Some ==> v.contains(
                (#[trigger] users[i], states[users[i]].unwrap()),
            ),
        voice_states_of(Some(states), author, users) matches Ok(v) ==> forall|j: int|
            0 <= j < v.len() - 1 ==> {
                let e = #[trigger] v[j];
                &&& users.contains(e.0)
                &&& e.0 != author
                &&& states.contains_key(e.0)
                &&& states[e.0] == Some(e.1)
            },
{
    lemma_users_in_voice(states, author, users);
    let found = users_in_voice(states, author, users);
    if let Ok(v) = voice_states_of(Some(states), author, users) {
        assert(v == found.push((author, states[author].unwrap())));
        assert forall|i: int|
            0 <= i < users.len() && users[i] != author && states.contains_key(users[i])
                && states[users[i]] is Some implies v.contains(
            (#[trigger] users[i], states[users[i]].unwrap()),
        ) by {
            let j = choose|j: int| 0 <= j < found.len() && found[j] == (users[i], states[users[i]].unwrap());
            assert(v[j] == found[j]);
        }
        assert forall|j: int| 0 <= j < v.len() - 1 implies {
            let e = #[trigger] v[j];
            &&& users.contains(e.0)
            &&& e.0 != author
            &&& states.contains_key(e.0)
            &&& states[e.0] == Some(e.1)
        } by {
            assert(v[j] == found[j]);
        }
    }
}

/// The voice channel of `user`.
pub fn get_user_voice_channel(voice_states: &HashMap<u64, Option<u64>>, user: u64) -> (r: Result<
    u64,
    CommandError,
>)
    ensures
        r == (match voice_channel(voice_states@, user) {
            Some(c) => Ok(c),
            None => Err(CommandError::UserNotInVoice),
        }),
{
    match voice_states.get(&user) {
        Some(state) => match state {
            Some(id) => Ok(*id),
            None => Err(CommandError::UserNotInVoice),
        },
        None => Err(CommandError::UserNotInVoice),
    }
}

/// The mentioned users that are in voice, with their channels, followed by
/// the author with theirs.
pub fn get_voice_states(
    guild: Option<&HashMap<u64, Option<u64>>>,
    author: u64,
    users: &Vec<u64>,
) -> (r: Result<Vec<(u64, u64)>, CommandError>)
    ensures
        match r {
            Ok(v) => voice_states_of(
                match guild {
                    Some(g) => Some(g@),
                    None => None,
                },
                author,
                users@,
            ) == Ok::<Seq<(u64, u64)>, CommandError>(v@),
            Err(e) => voice_states_of(
                match guild {
                    Some(g) => Some(g@),
                    None => None,
                },
                author,
                users@,
            ) == Err::<Seq<(u64, u64)>, CommandError>(e),
        },
{
    let states = match guild {
        Some(g) => g,
        None => return Err(CommandError::GuildNotFound),
    };
    let id = match get_user_voice_channel(states, author) {
        Ok(id) => id,
        Err(_) => return Err(CommandError::AuthorNotInVoice),
    };
    let mut valid_users: Vec<(u64, u64)> = Vec::new();
    let mut i: usize = 0;
    while i < users.len()
        invariant
            i <= users@.len(),
            valid_users@ == users_in_voice(states@, author, users@.take(i as int)),
        decreases users@.len() - i,
    {
        let user = users[i];
        assert(users@.take(i + 1).drop_last() =~= users@.take(i as int));
        if user != author {
            if let Ok(channel) = get_user_voice_channel(states, user) {
                valid_users.push((user, channel));
            }
        }
        i = i + 1;
    }
    assert(users@.take(users@.len() as int) =~= users@);
    if valid_users.len() == 0 {
        return Err(CommandError::UserNotInVoice);
    }
    valid_users.push((author, id));
    Ok(valid_users)
}

/// The text that names the `count`-th name taken, last name first, of `n`
/// names: "and " before the one taken last, ", " after the others when there
/// are more than two, " " after the first of two.
pub open spec fn name_piece(n: nat, count: nat, name: Seq<char>) -> Seq<char> {
    if n > 1 && n - count == 1 {
        seq!['a', 'n', 'd', ' '] + name
    } else if n > 2 {
        name + seq![',', ' ']
    } else if n == 1 {
        name
    } else {
        name + seq![' ']
    }
}

/// The text naming the last `c` of `names`, last name first.
pub open spec fn names_text(names: Seq<Seq<char>>, c: nat) -> Seq<char>
    decreases c,
{
    if c == 0 || c > names.len() {
        Seq::empty()
    } else {
        names_text(names, (c - 1) as nat) + name_piece(
            names.len(),
            (c - 1) as nat,
            names[names.len() - c],
        )
    }
}

/// Each text followed by ", ", one after another.
pub open spec fn comma_list(s: Seq<Seq<char>>) -> Seq<char> {
    s.map_values(|x: Seq<char>| x + seq![',', ' ']).flatten()
}

proof fn lemma_names_text_prefix(names: Seq<Seq<char>>, c: nat)
    requires
        names.len() >= 3,
        c < names.len(),
    ensures
        names_text(names, c) == comma_list(
            names.subrange(names.len() - c, names.len() as int).reverse(),
        ),
    decreases c,
{
    let n = names.len();
    let sub = names.subrange(n - c, n as int).reverse();
    let mapped = sub.map_values(|x: Seq<char>| x + seq![',', ' ']);
    mapped.lemma_flatten_and_flatten_alt_are_equivalent();
    if c == 0 {
        assert(mapped =~= Seq::<Seq<char>>::empty());
    } else {
        lemma_names_text_prefix(names, (c - 1) as nat);
        let prev = names.subrange(n - (c - 1), n as int).reverse();
        let pmapped = prev.map_values(|x: Seq<char>| x + seq![',', ' ']);
        pmapped.lemma_flatten_and_flatten_alt_are_equivalent();
        assert(sub =~= prev.push(names[n - c]));
        assert(mapped =~= pmapped.push(names[n - c] + seq![',', ' ']));
        assert(mapped.drop_last() =~= pmapped);
    }
}

/// The text of the names, last name first: one name alone; "B and A" for
/// two; for three or more, every name but the first followed by ", ", then
/// "and " and the first name.
pub proof fn lemma_names_text(names: Seq<Seq<char>>)
    ensures
        names.len() == 0 ==> names_text(names, 0) == Seq::<char>::empty(),
        names.len() == 1 ==> names_text(names, 1) == names[0],
        names.len() == 2 ==> names_text(names, 2) == names[1] + seq![' ', 'a', 'n', 'd', ' ']
            + names[0],
        names.len() >= 3 ==> names_text(names, names.len()) == comma_list(
            names.subrange(1, names.len() as int).reverse(),
        ) + seq!['a', 'n', 'd', ' '] + names[0],
{
    let n = names.len();
    if n == 1 {
        assert(names_text(names, 0) == Seq::<char>::empty());
        assert(names_text(names, 1) =~= names[0]);
    } else if n == 2 {
        assert(names_text(names, 0) == Seq::<char>::empty());
        assert(names_text(names, 1) =~= names[1] + seq![' ']);
        assert(names_text(names, 2) =~= names[1] + seq![' ', 'a', 'n', 'd', ' '] + names[0]);
    } else if n >= 3 {
        lemma_names_text_prefix(names, (n - 1) as nat);
        assert(names.subrange(n - (n - 1), n as int) =~= names.subrange(1, n as int));
        assert(names_text(names, n) =~= names_text(names, (n - 1) as nat) + seq!['a', 'n', 'd', ' ']
            + names[0]);
    }
}

/// The names of the mentioned users as one text: "C, B, and A" for the
/// mentions A, B, C; "B and A" for two; the name alone for one.
pub fn format_usernames(names: &Vec<String>) -> (r: String)
    ensures
        r@ == names_text(names@.map_values(|s: String| s@), names@.len()),
{
    let ghost views = names@.map_values(|s: String| s@);
    let n = names.len();
    let mut out = String::new();
    let mut count: usize = 0;
    while count < n
        invariant
            count <= n,
            n == names@.len(),
            views == names@.map_values(|s: String| s@),
            out@ == names_text(views, count as nat),
        decreases n - count,
    {
        let name = &names[n - 1 - count];
        assert(name@ == views[n - (count + 1)]);
        proof {
            reveal_strlit("and ");
            reveal_strlit(", ");
            reveal_strlit(" ");
        }
        if n > 1 && n - count == 1 {
            out.append("and ");
            out.append(name.as_str());
        } else if n > 2 {
            out.append(name.as_str());
            out.append(", ");
        } else if n == 1 {
            out.append(name.as_str());
        } else {
            out.append(name.as_str());
            out.append(" ");
        }
        count = count + 1;
    }
    out
}

/// The text announcing the punishment of the named users.
pub fn punish_message(usernames: &String, mentions: usize) -> (r: String)
    ensures
        r@ == usernames@ + (if mentions == 1 {
            " is being punished for 5 seconds..."@
        } else {
            " are being punished for 5 seconds..."@
        }),
{
    let mut msg = usernames.clone();
    if mentions == 1 {
        msg.append(" is being punished for 5 seconds...");
    } else {
        msg.append(" are being punished for 5 seconds...");
    }
    msg
}

/// `roles` without any occurrence of `role`.
pub open spec fn without_role(roles: Seq<u64>, role: u64) -> Seq<u64>
    decreases roles.len(),
{
    if roles.len() == 0 {
        roles
    } else {
        let rest = without_role(roles.drop_last(), role);
        if roles.last() == role {
            rest
        } else {
            rest.push(roles.last())
        }
    }
}

/// Taking a role away leaves no occurrence of it and every other role.
pub proof fn lemma_without_role(roles: Seq<u64>, role: u64)
    ensures
        !without_role(roles, role).contains(role),
        forall|x: u64| x != role ==> (#[trigger] without_role(roles, role).contains(x) <==> roles.contains(x)),
    decreases roles.len(),
{
    if roles.len() > 0 {
        let d = roles.drop_last();
        lemma_without_role(d, role);
        let r = without_role(roles, role);
        let rd = without_role(d, role);
        assert(roles =~= d.push(roles.last()));
        assert forall|x: u64| #[trigger] r.contains(x) <==> (rd.contains(x) || (x == roles.last() && x != role)) by {
            if roles.last() != role {
                assert(r =~= rd.push(roles.last()));
                if r.contains(x) {
                    let i = choose|i: int| 0 <= i < r.len() && r[i] == x;
                    if i < rd.len() {
                        assert(rd[i] == x);
                    }
                }
                if rd.contains(x) {
                    let i = choose|i: int| 0 <= i < rd.len() && rd[i] == x;
                    assert(r[i] == x);
                }
                if x == roles.last() {
                    assert(r[r.len() - 1] == x);
                }
            }
        }
        assert forall|x: u64| #[trigger] roles.contains(x) <==> (d.contains(x) || x == roles.last()) by {
            if roles.contains(x) {
                let i = choose|i: int| 0 <= i < roles.len() && roles[i] == x;
                if i < d.len() {
                    assert(d[i] == x);
                }
            }
            if d.contains(x) {
                let i = choose|i: int| 0 <= i < d.len() && d[i] == x;
                assert(roles[i] == x);
            }
            if x == roles.last() {
                assert(roles[roles.len() - 1] == x);
            }
        }
    }
}

/// When users can be punished, the author comes last with their channel,
/// after at least one other user, and the author is not among the others.
pub proof fn lemma_voice_states_author_last(
    guild: Option<Map<u64, Option<u64>>>,
    author: u64,
    users: Seq<u64>,
)
    ensures
        voice_states_of(guild, author, users) matches Ok(v) ==> {
            &&& v.len() >= 2
            &&& guild matches Some(states) && voice_channel(states, author) == Some(v.last().1)
            &&& v.last().0 == author
            &&& forall|i: int| 0 <= i < v.len() - 1 ==> (#[trigger] v[i]).0 != author
        },
{
    if let Some(states) = guild {
        lemma_users_in_voice_not_author(states, author, users);
    }
}

proof fn lemma_users_in_voice_not_author(states: Map<u64, Option<u64>>, author: u64, users: Seq<u64>)
    ensures
        forall|i: int|
            0 <= i < users_in_voice(states, author, users).len() ==> (#[trigger] users_in_voice(
                states,
                author,
                users,
            )[i]).0 != author,
    decreases users.len(),
{
    if users.len() > 0 {
        lemma_users_in_voice_not_author(states, author, users.drop_last());
        let rest = users_in_voice(states, author, users.drop_last());
        let r = users_in_voice(states, author, users);
        assert forall|i: int| 0 <= i < r.len() implies (#[trigger] r[i]).0 != author by {
            if i < rest.len() {
                assert(rest[i].0 != author);
            }
        }
    }
}

/// The roles of a member once the banishment role is taken away.
pub fn remove_banishment(roles: &Vec<u64>) -> (r: Vec<u64>)
    ensures
        r@ == without_role(roles@, BANISHED_ROLE_ID),
{
    let mut out: Vec<u64> = Vec::new();
    let mut i: usize = 0;
    while i < roles.len()
        invariant
            i <= roles@.len(),
            out@ == without_role(roles@.take(i as int), BANISHED_ROLE_ID),
        decreases roles@.len() - i,
    {
        assert(roles@.take(i + 1).drop_last() =~= roles@.take(i as int));
        if roles[i] != BANISHED_ROLE_ID {
            out.push(roles[i]);
        }
        i = i + 1;
    }
    assert(roles@.take(roles@.len() as int) =~= roles@);
    out
}

} // verus!
