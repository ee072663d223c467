use crate::errors::CustomError;
use crate::models::{CreateUser, LoginUser, TaskItem, UpdateTaskItem, User};
use crate::security::{
    expiry_after, get_hashed_password, now_string, now_timestamp, scrypt_verifies, spec_expiry,
    verify_password,
};
use crate::store::{TaskStore, UserStore};
use crate::token::{mint_token, token_of};
use vstd::prelude::*;

verus! {

// ----- registration and login -----

/// Registers an account: refused when the name is taken, otherwise stored
/// with the next id and the password's scrypt verifier, and returned.
pub fn create_user(user: CreateUser, users_db: &mut UserStore) -> (r: Result<User, CustomError>)
    requires
        old(users_db).wf(),
    ensures
        final(users_db).wf(),
        old(users_db).spec_contains(user.username@) ==> (r matches Err(e) && e
            == CustomError::UserExistsError(user.username) && *final(users_db) == *old(
            users_db,
        )),
        !old(users_db).spec_contains(user.username@) ==> (r matches Ok(u) && u.user_id == old(
            users_db,
        ).records().len() && u.username == user.username && scrypt_verifies(
            user.password@,
            u.password@,
        ) && final(users_db).records() == old(users_db).records().push(u)),
{
    if users_db.contains_key(&user.username) {
        return Err(CustomError::UserExistsError(user.username));
    }
    let key_count = users_db.key_count();
    let created_user = User {
        user_id: key_count,
        username: user.username,
        password: get_hashed_password(user.password.as_str()),
    };
    users_db.insert(created_user.duplicate());
    Ok(created_user)
}

/// When a login attempt succeeds: the account exists and the password
/// matches its stored verifier. The two failures are indistinguishable.
pub open spec fn spec_login_ok(db: UserStore, lu: LoginUser) -> bool {
    db.spec_contains(lu.username@) && scrypt_verifies(
        lu.password@,
        db.spec_user(lu.username@).password@,
    )
}

/// Holds when `t` is a token this library would mint for `sub` under
/// `secret`, with some expiry.
pub open spec fn minted_for(t: Seq<char>, sub: Seq<char>, secret: Seq<u8>) -> bool {
    exists|exp: u64| t == #[trigger] token_of(sub, exp, secret)
}

/// The login decision at clock reading `now`: a token for the subject
/// exactly when the credentials check out, `InvalidCredentialsError`
/// otherwise.
pub fn login_at(login_user: &LoginUser, users_db: &UserStore, secret: &[u8], now: i64) -> (r:
    Result<String, CustomError>)
    requires
        users_db.wf(),
    ensures
        !spec_login_ok(*users_db, *login_user) ==> (r matches Err(e) && e
            == CustomError::InvalidCredentialsError),
        spec_login_ok(*users_db, *login_user) ==> (r matches Ok(t) && t@ == token_of(
            login_user.username@,
            spec_expiry(now),
            secret@,
        )),
{
    let user = match users_db.get(&login_user.username) {
        Some(u) => u,
        None => {
            return Err(CustomError::InvalidCredentialsError);
        },
    };
    if !verify_password(login_user.password.as_str(), user.password.as_str()) {
        return Err(CustomError::InvalidCredentialsError);
    }
    let exp = expiry_after(now);
    Ok(mint_token(user.username.as_str(), exp, secret))
}

/// Logs a user in against the store, minting a token at the clock's present
/// reading.
pub fn login(login_user: LoginUser, users_db: &UserStore, secret: &[u8]) -> (r: Result<
    String,
    CustomError,
>)
    requires
        users_db.wf(),
    ensures
        !spec_login_ok(*users_db, login_user) ==> (r matches Err(e) && e
            == CustomError::InvalidCredentialsError),
        spec_login_ok(*users_db, login_user) ==> (r matches Ok(t) && minted_for(
            t@,
            login_user.username@,
            secret@,
        )),
{
    let now = now_timestamp();
    let r = login_at(&login_user, users_db, secret, now);
    proof {
        if spec_login_ok(*users_db, login_user) {
            assert(minted_for(r->Ok_0@, login_user.username@, secret@)) by {
                assert(r->Ok_0@ == token_of(login_user.username@, spec_expiry(now), secret@));
            }
        }
    }
    r
}

/// Law: registering `u` with password `p` and then logging in as `u` with
/// `p` succeeds, and the token is minted for subject `u`.
pub proof fn lemma_register_then_login(
    db0: UserStore,
    db1: UserStore,
    reg: CreateUser,
    made: User,
    lu: LoginUser,
)
    requires
        db0.wf(),
        db1.wf(),
        !db0.spec_contains(reg.username@),
        made.username == reg.username,
        scrypt_verifies(reg.password@, made.password@),
        db1.records() == db0.records().push(made),
        lu.username@ == reg.username@,
        lu.password@ == reg.password@,
    ensures
        spec_login_ok(db1, lu),
        db1.spec_user(lu.username@) == made,
{
    let last = db1.records().len() - 1;
    assert(db1.records()[last] == made);
    assert(db1.spec_contains(lu.username@));
    let k = choose|i: int|
        0 <= i < db1.records().len() && (#[trigger] db1.records()[i]).username@ == lu.username@;
    if k != last {
        assert(db0.records()[k] == db1.records()[k]);
        assert(false);
    }
}

// ----- task handlers -----

/// Whether `u` is the owner recorded on the task.
pub open spec fn owner_is(t: TaskItem, u: Seq<char>) -> bool {
    match t.user_as {
        Some(s) => s@ == u,
        None => false,
    }
}

/// The tasks owned by `u`, in store order.
pub open spec fn owned_tasks(entries: Seq<(usize, TaskItem)>, u: Seq<char>) -> Seq<TaskItem>
    decreases entries.len(),
{
    if entries.len() == 0 {
        Seq::empty()
    } else {
        (if owner_is(entries[0].1, u) {
            seq![entries[0].1]
        } else {
            Seq::empty()
        }) + owned_tasks(entries.drop_first(), u)
    }
}

proof fn lemma_owned_tasks_concat(a: Seq<(usize, TaskItem)>, b: Seq<(usize, TaskItem)>, u: Seq<
    char,
>)
    ensures
        owned_tasks(a + b, u) == owned_tasks(a, u) + owned_tasks(b, u),
    decreases a.len(),
{
    if a.len() == 0 {
        assert(a + b =~= b);
        assert(owned_tasks(a, u) =~= Seq::<TaskItem>::empty());
        assert(owned_tasks(a + b, u) =~= owned_tasks(a, u) + owned_tasks(b, u));
    } else {
        lemma_owned_tasks_concat(a.drop_first(), b, u);
        assert((a + b).drop_first() =~= a.drop_first() + b);
        assert((a + b)[0] == a[0]);
        assert(owned_tasks(a + b, u) =~= owned_tasks(a, u) + owned_tasks(b, u));
    }
}

proof fn lemma_owned_tasks_members(entries: Seq<(usize, TaskItem)>, u: Seq<char>)
    ensures
        forall|t: TaskItem| #[trigger] owned_tasks(entries, u).contains(t) ==> owner_is(t, u),
    decreases entries.len(),
{
    if entries.len() > 0 {
        lemma_owned_tasks_members(entries.drop_first(), u);
        assert forall|t: TaskItem| #[trigger]
            owned_tasks(entries, u).contains(t) implies owner_is(t, u) by {
            let s = owned_tasks(entries, u);
            let h: Seq<TaskItem> = if owner_is(entries[0].1, u) {
                seq![entries[0].1]
            } else {
                Seq::empty()
            };
            let idx = choose|i: int| 0 <= i < s.len() && s[i] == t;
            if idx < h.len() {
                assert(t == entries[0].1);
            } else {
                assert(owned_tasks(entries.drop_first(), u)[idx - h.len()] == t);
                assert(owned_tasks(entries.drop_first(), u).contains(t));
            }
        }
    }
}

/// Law: a task created for subject `u` appears in `u`'s listing, which
/// otherwise keeps its order, and in no other subject's listing.
pub proof fn lemma_created_task_listing(
    db0: TaskStore,
    db1: TaskStore,
    id: usize,
    item: TaskItem,
    u: Seq<char>,
)
    requires
        owner_is(item, u),
        db1.entries() == db0.entries().push((id, item)),
    ensures
        owned_tasks(db1.entries(), u) == owned_tasks(db0.entries(), u).push(item),
        forall|u2: Seq<char>|
            u2 != u ==> #[trigger] owned_tasks(db1.entries(), u2) == owned_tasks(
                db0.entries(),
                u2,
            ),
        forall|u2: Seq<char>| u2 != u ==> !(#[trigger] owned_tasks(db1.entries(), u2)).contains(
            item,
        ),
{
    assert(db1.entries() =~= db0.entries() + seq![(id, item)]);
    lemma_owned_tasks_concat(db0.entries(), seq![(id, item)], u);
    assert(owned_tasks(seq![(id, item)], u) =~= seq![item]) by {
        assert(seq![(id, item)].drop_first() =~= Seq::<(usize, TaskItem)>::empty());
        assert(owned_tasks(Seq::<(usize, TaskItem)>::empty(), u) =~= Seq::<TaskItem>::empty());
        assert(seq![(id, item)][0] == (id, item));
    }
    assert(owned_tasks(db1.entries(), u) =~= owned_tasks(db0.entries(), u).push(item));
    assert forall|u2: Seq<char>| u2 != u implies #[trigger] owned_tasks(db1.entries(), u2)
        == owned_tasks(db0.entries(), u2) by {
        lemma_owned_tasks_concat(db0.entries(), seq![(id, item)], u2);
        assert(owned_tasks(seq![(id, item)], u2) =~= Seq::<TaskItem>::empty()) by {
            assert(seq![(id, item)].drop_first() =~= Seq::<(usize, TaskItem)>::empty());
            assert(owned_tasks(Seq::<(usize, TaskItem)>::empty(), u2) =~= Seq::<
                TaskItem,
            >::empty());
            assert(seq![(id, item)][0] == (id, item));
        }
        assert(owned_tasks(db1.entries(), u2) =~= owned_tasks(db0.entries(), u2));
    }
    assert forall|u2: Seq<char>| u2 != u implies !(#[trigger] owned_tasks(
        db1.entries(),
        u2,
    )).contains(item) by {
        lemma_owned_tasks_members(db1.entries(), u2);
        if owned_tasks(db1.entries(), u2).contains(item) {
            assert(owner_is(item, u2));
        }
    }
}

/// Creates a task at timestamp `now`: the record gets the next id, the
/// caller as owner, `now` as creation stamp, and no modification stamp; the
/// id in use is the store's size, overwriting any record already under it.
pub fn create_task_item_at(
    task_list_item: TaskItem,
    tasks_db: &mut TaskStore,
    curr_user: String,
    now: String,
) -> (r: TaskItem)
    requires
        old(tasks_db).wf(),
    ensures
        final(tasks_db).wf(),
        r.item_id == Some(old(tasks_db).entries().len() as usize),
        r.name == task_list_item.name,
        r.description == task_list_item.description,
        r.deadline == task_list_item.deadline,
        r.user_as == Some(curr_user),
        r.created_at == Some(now),
        r.modified_at is None,
        final(tasks_db).spec_contains_key((old(tasks_db).entries().len() as usize)),
        final(tasks_db).spec_get((old(tasks_db).entries().len() as usize)) == r,
        forall|other: usize|
            other != (old(tasks_db).entries().len() as usize) ==> #[trigger] final(tasks_db).spec_contains_key(other) == old(tasks_db).spec_contains_key(other),
        forall|other: usize|
            other != (old(tasks_db).entries().len() as usize) && old(
                tasks_db,
            ).spec_contains_key(other) ==> #[trigger] final(tasks_db).spec_get(other) == old(
                tasks_db,
            ).spec_get(other),
        !old(tasks_db).spec_contains_key((old(tasks_db).entries().len() as usize)) ==> final(tasks_db).entries() == old(tasks_db).entries().push(
            ((old(tasks_db).entries().len() as usize), r),
        ),
{
    let key_count = tasks_db.key_count();
    let created = TaskItem {
        item_id: Some(key_count),
        name: task_list_item.name,
        description: task_list_item.description,
        created_at: Some(now),
        modified_at: None,
        user_as: Some(curr_user),
        deadline: task_list_item.deadline,
    };
    tasks_db.set(key_count, created.duplicate());
    created
}

/// Creates a task, stamped with the clock's present reading.
pub fn create_task_item(task_list_item: TaskItem, tasks_db: &mut TaskStore, curr_user: String) -> (r:
    TaskItem)
    requires
        old(tasks_db).wf(),
    ensures
        final(tasks_db).wf(),
        r.item_id == Some(old(tasks_db).entries().len() as usize),
        r.name == task_list_item.name,
        r.description == task_list_item.description,
        r.deadline == task_list_item.deadline,
        r.user_as == Some(curr_user),
        r.created_at is Some,
        r.modified_at is None,
        final(tasks_db).spec_contains_key((old(tasks_db).entries().len() as usize)),
        final(tasks_db).spec_get((old(tasks_db).entries().len() as usize)) == r,
        forall|other: usize|
            other != (old(tasks_db).entries().len() as usize) ==> #[trigger] final(tasks_db).spec_contains_key(other) == old(tasks_db).spec_contains_key(other),
        forall|other: usize|
            other != (old(tasks_db).entries().len() as usize) && old(
                tasks_db,
            ).spec_contains_key(other) ==> #[trigger] final(tasks_db).spec_get(other) == old(
                tasks_db,
            ).spec_get(other),
        !old(tasks_db).spec_contains_key((old(tasks_db).entries().len() as usize)) ==> final(tasks_db).entries() == old(tasks_db).entries().push(
            ((old(tasks_db).entries().len() as usize), r),
        ),
{
    let now = now_string();
    create_task_item_at(task_list_item, tasks_db, curr_user, now)
}

/// Lists the caller's tasks, in store order.
pub fn get_task_items(tasks_db: &TaskStore, curr_user: String) -> (r: Vec<TaskItem>)
    ensures
        r@ == owned_tasks(tasks_db.entries(), curr_user@),
{
    let mut res: Vec<TaskItem> = Vec::new();
    let n = tasks_db.items.len();
    for i in 0..n
        invariant
            n == tasks_db.entries().len(),
            res@ == owned_tasks(tasks_db.entries().take(i as int), curr_user@),
    {
        let t = &tasks_db.items[i].1;
        let is_owner = match &t.user_as {
            Some(s) => *s == curr_user,
            None => false,
        };
        if is_owner {
            res.push(t.duplicate());
        }
        proof {
            let e = tasks_db.entries();
            assert(e.take(i + 1) =~= e.take(i as int) + seq![e[i as int]]);
            lemma_owned_tasks_concat(e.take(i as int), seq![e[i as int]], curr_user@);
            assert(seq![e[i as int]].drop_first() =~= Seq::<(usize, TaskItem)>::empty());
            assert(owned_tasks(Seq::<(usize, TaskItem)>::empty(), curr_user@) =~= Seq::<
                TaskItem,
            >::empty());
            assert(seq![e[i as int]][0] == e[i as int]);
            if is_owner {
                assert(owned_tasks(seq![e[i as int]], curr_user@) =~= seq![e[i as int].1]);
            } else {
                assert(owned_tasks(seq![e[i as int]], curr_user@) =~= Seq::<TaskItem>::empty());
            }
            assert(res@ =~= owned_tasks(e.take(i + 1), curr_user@));
        }
    }
    proof {
        assert(tasks_db.entries().take(n as int) =~= tasks_db.entries());
    }
    res
}

/// The stored field when an update offers a replacement, the prior value
/// otherwise.
pub open spec fn pick(newer: Option<String>, prior: String) -> String {
    match newer {
        Some(s) => s,
        None => prior,
    }
}

fn pick_exec(newer: Option<String>, prior: String) -> (r: String)
    ensures
        r == pick(newer, prior),
{
    match newer {
        Some(s) => s,
        None => prior,
    }
}

/// Updates a task at timestamp `now`. A missing id answers with an empty
/// body; a caller who is not the owner is refused and the store is left
/// untouched; the owner's present fields replace the stored ones and the
/// modification stamp is set.
pub fn update_task_by_id_at(
    id: usize,
    updated_data: UpdateTaskItem,
    tasks_db: &mut TaskStore,
    curr_user: String,
    now: String,
) -> (r: Result<Option<TaskItem>, CustomError>)
    requires
        old(tasks_db).wf(),
    ensures
        final(tasks_db).wf(),
        !old(tasks_db).spec_contains_key(id) ==> (r matches Ok(o) && o is None && *final(tasks_db) == *old(tasks_db)),
        old(tasks_db).spec_contains_key(id) && !owner_is(
            old(tasks_db).spec_get(id),
            curr_user@,
        ) ==> (r matches Err(e) && e == CustomError::NotAuthorizedError && *final(tasks_db)
            == *old(tasks_db)),
        old(tasks_db).spec_contains_key(id) && owner_is(old(tasks_db).spec_get(id), curr_user@)
            ==> (r matches Ok(o) && o matches Some(t) && t.item_id == old(tasks_db).spec_get(
            id,
        ).item_id && t.name == pick(updated_data.name, old(tasks_db).spec_get(id).name)
            && t.description == pick(
            updated_data.description,
            old(tasks_db).spec_get(id).description,
        ) && t.deadline == pick(updated_data.deadline, old(tasks_db).spec_get(id).deadline)
            && t.created_at == old(tasks_db).spec_get(id).created_at && t.user_as == old(
            tasks_db,
        ).spec_get(id).user_as && t.modified_at == Some(now) && final(tasks_db).spec_get(id)
            == t && final(tasks_db).spec_contains_key(id) && forall|other: usize|
            other != id ==> (#[trigger] final(tasks_db).spec_contains_key(other) == old(
                tasks_db,
            ).spec_contains_key(other) && (old(tasks_db).spec_contains_key(other) ==> final(tasks_db).spec_get(other) == old(tasks_db).spec_get(other)))),
{
    let current = match tasks_db.get(id) {
        Some(item) => item.duplicate(),
        None => {
            return Ok(None);
        },
    };
    let is_owner = match &current.user_as {
        Some(s) => *s == curr_user,
        None => false,
    };
    if !is_owner {
        return Err(CustomError::NotAuthorizedError);
    }
    let updated = TaskItem {
        item_id: current.item_id,
        name: pick_exec(updated_data.name, current.name),
        description: pick_exec(updated_data.description, current.description),
        created_at: current.created_at,
        modified_at: Some(now),
        user_as: current.user_as,
        deadline: pick_exec(updated_data.deadline, current.deadline),
    };
    tasks_db.replace(id, updated.duplicate());
    Ok(Some(updated))
}

/// Updates a task, stamping the modification with the clock's present
/// reading.
pub fn update_task_by_id(
    id: usize,
    updated_data: UpdateTaskItem,
    tasks_db: &mut TaskStore,
    curr_user: String,
) -> (r: Result<Option<TaskItem>, CustomError>)
    requires
        old(tasks_db).wf(),
    ensures
        final(tasks_db).wf(),
        !old(tasks_db).spec_contains_key(id) ==> (r matches Ok(o) && o is None && *final(tasks_db) == *old(tasks_db)),
        old(tasks_db).spec_contains_key(id) && !owner_is(
            old(tasks_db).spec_get(id),
            curr_user@,
        ) ==> (r matches Err(e) && e == CustomError::NotAuthorizedError && *final(tasks_db)
            == *old(tasks_db)),
        old(tasks_db).spec_contains_key(id) && owner_is(old(tasks_db).spec_get(id), curr_user@)
            ==> (r matches Ok(o) && o matches Some(t) && t.item_id == old(tasks_db).spec_get(
            id,
        ).item_id && t.name == pick(updated_data.name, old(tasks_db).spec_get(id).name)
            && t.description == pick(
            updated_data.description,
            old(tasks_db).spec_get(id).description,
        ) && t.deadline == pick(updated_data.deadline, old(tasks_db).spec_get(id).deadline)
            && t.created_at == old(tasks_db).spec_get(id).created_at && t.user_as == old(
            tasks_db,
        ).spec_get(id).user_as && t.modified_at is Some && final(tasks_db).spec_get(id) == t
            && final(tasks_db).spec_contains_key(id) && forall|other: usize|
            other != id ==> (#[trigger] final(tasks_db).spec_contains_key(other) == old(
                tasks_db,
            ).spec_contains_key(other) && (old(tasks_db).spec_contains_key(other) ==> final(tasks_db).spec_get(other) == old(tasks_db).spec_get(other)))),
{
    let now = now_string();
    update_task_by_id_at(id, updated_data, tasks_db, curr_user, now)
}

/// Deletes a task. A missing id answers with an empty body; a caller who is
/// not the owner is refused and the store is left untouched; the owner's
/// record is removed and its id echoed back.
pub fn delete_task_by_id(id: usize, tasks_db: &mut TaskStore, curr_user: String) -> (r: Result<
    Option<usize>,
    CustomError,
>)
    requires
        old(tasks_db).wf(),
    ensures
        final(tasks_db).wf(),
        !old(tasks_db).spec_contains_key(id) ==> (r matches Ok(o) && o is None && *final(tasks_db) == *old(tasks_db)),
        old(tasks_db).spec_contains_key(id) && !owner_is(
            old(tasks_db).spec_get(id),
            curr_user@,
        ) ==> (r matches Err(e) && e == CustomError::NotAuthorizedError && *final(tasks_db)
            == *old(tasks_db)),
        old(tasks_db).spec_contains_key(id) && owner_is(old(tasks_db).spec_get(id), curr_user@)
            ==> (r matches Ok(o) && o matches Some(gone) && gone == id && !final(tasks_db).spec_contains_key(id) && forall|other: usize|
            other != id ==> (#[trigger] final(tasks_db).spec_contains_key(other) == old(
                tasks_db,
            ).spec_contains_key(other) && (old(tasks_db).spec_contains_key(other) ==> final(tasks_db).spec_get(other) == old(tasks_db).spec_get(other)))),
{
    let current = match tasks_db.get(id) {
        Some(item) => item,
        None => {
            return Ok(None);
        },
    };
    let is_owner = match &current.user_as {
        Some(s) => *s == curr_user,
        None => false,
    };
    if !is_owner {
        return Err(CustomError::NotAuthorizedError);
    }
    tasks_db.remove(id);
    Ok(Some(id))
}

} // verus!
